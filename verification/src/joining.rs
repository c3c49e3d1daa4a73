//! The joining pass: a seven-state finite-state machine assigns each glyph
//! its contextual shaping action, with transparent characters skipped and
//! the context windows steering the first state and the last assignment.

use vstd::prelude::*;
use crate::action::Action;
use crate::buffer::{Buffer, GlyphInfo};
use crate::plan::ArabicShapePlan;
use crate::plan::Script;
use crate::unicode::{
    get_joining_type,
    spec_joining_type,
    GeneralCategory,
    JoiningTable,
    JoiningType,
};

verus! {

broadcast use vstd::group_vstd_default;

/// One cell of the transition table: the action to rewrite onto the
/// previous non-transparent glyph, the action for the current glyph, and
/// the next state. Transparent classes never reach the table.
pub open spec fn spec_entry(state: int, jt: JoiningType) -> (Action, Action, int) {
    match jt {
        JoiningType::U => (Action::NoAction, Action::NoAction, 0),
        JoiningType::L => (Action::NoAction, Action::Isol, 2),
        JoiningType::R => if state == 2 {
            (Action::Init, Action::Fina, 1)
        } else if state == 3 {
            (Action::Medi, Action::Fina, 1)
        } else if state == 4 {
            (Action::Med2, Action::Isol, 1)
        } else if state == 5 {
            (Action::Isol, Action::Isol, 1)
        } else {
            (Action::NoAction, Action::Isol, 1)
        },
        JoiningType::D => if state == 2 {
            (Action::Init, Action::Fina, 3)
        } else if state == 3 {
            (Action::Medi, Action::Fina, 3)
        } else if state == 4 {
            (Action::Med2, Action::Isol, 2)
        } else if state == 5 {
            (Action::Isol, Action::Isol, 2)
        } else {
            (Action::NoAction, Action::Isol, 2)
        },
        JoiningType::GroupAlaph => if state == 1 {
            (Action::NoAction, Action::Fin2, 5)
        } else if state == 2 {
            (Action::Init, Action::Fina, 4)
        } else if state == 3 {
            (Action::Medi, Action::Fina, 4)
        } else if state == 4 {
            (Action::Med2, Action::Fin2, 5)
        } else if state == 5 {
            (Action::Isol, Action::Fin2, 5)
        } else if state == 6 {
            (Action::NoAction, Action::Fin3, 5)
        } else {
            (Action::NoAction, Action::Isol, 1)
        },
        JoiningType::GroupDalathRish => if state == 2 {
            (Action::Init, Action::Fina, 6)
        } else if state == 3 {
            (Action::Medi, Action::Fina, 6)
        } else if state == 4 {
            (Action::Med2, Action::Isol, 6)
        } else if state == 5 {
            (Action::Isol, Action::Isol, 6)
        } else {
            (Action::NoAction, Action::Isol, 6)
        },
        _ => (Action::NoAction, Action::NoAction, 0),
    }
}

/// Executable transition-table lookup.
pub fn state_entry(state: u8, jt: JoiningType) -> (r: (Action, Action, u8))
    requires
        0 <= state < 7,
        jt != JoiningType::T,
        jt != JoiningType::X,
    ensures
        (r.0, r.1, r.2 as int) == spec_entry(state as int, jt),
        r.2 < 7,
{
    match jt {
        JoiningType::U => (Action::NoAction, Action::NoAction, 0),
        JoiningType::L => (Action::NoAction, Action::Isol, 2),
        JoiningType::R => if state == 2 {
            (Action::Init, Action::Fina, 1)
        } else if state == 3 {
            (Action::Medi, Action::Fina, 1)
        } else if state == 4 {
            (Action::Med2, Action::Isol, 1)
        } else if state == 5 {
            (Action::Isol, Action::Isol, 1)
        } else {
            (Action::NoAction, Action::Isol, 1)
        },
        JoiningType::D => if state == 2 {
            (Action::Init, Action::Fina, 3)
        } else if state == 3 {
            (Action::Medi, Action::Fina, 3)
        } else if state == 4 {
            (Action::Med2, Action::Isol, 2)
        } else if state == 5 {
            (Action::Isol, Action::Isol, 2)
        } else {
            (Action::NoAction, Action::Isol, 2)
        },
        JoiningType::GroupAlaph => if state == 1 {
            (Action::NoAction, Action::Fin2, 5)
        } else if state == 2 {
            (Action::Init, Action::Fina, 4)
        } else if state == 3 {
            (Action::Medi, Action::Fina, 4)
        } else if state == 4 {
            (Action::Med2, Action::Fin2, 5)
        } else if state == 5 {
            (Action::Isol, Action::Fin2, 5)
        } else if state == 6 {
            (Action::NoAction, Action::Fin3, 5)
        } else {
            (Action::NoAction, Action::Isol, 1)
        },
        JoiningType::GroupDalathRish => if state == 2 {
            (Action::Init, Action::Fina, 6)
        } else if state == 3 {
            (Action::Medi, Action::Fina, 6)
        } else if state == 4 {
            (Action::Med2, Action::Isol, 6)
        } else if state == 5 {
            (Action::Isol, Action::Isol, 6)
        } else {
            (Action::NoAction, Action::Isol, 6)
        },
        _ => (Action::NoAction, Action::NoAction, 0),
    }
}

/// Ghost state of the joining machine: current state, the index of the last
/// non-transparent glyph, the actions assigned so far (keyed by glyph
/// index), and the unsafe-to-break ranges recorded so far.
pub ghost struct JoinState {
    pub state: int,
    pub prev: Option<int>,
    pub actions: Map<int, Action>,
    pub breaks: Seq<(usize, usize)>,
}

/// Machine state before any glyph has been seen.
pub open spec fn initial_join_state(state: int) -> JoinState {
    (JoinState { state: state, prev: None, actions: Map::empty(), breaks: Seq::empty() })
}

/// One step of the machine on the glyph at `idx` with resolved class `jt`.
/// Transparent glyphs take `NoAction` and leave everything else alone; any
/// other class consults the table, possibly rewriting the previous
/// non-transparent glyph's action and recording the rewritten span.
pub open spec fn join_step(m: JoinState, jt: JoiningType, idx: int) -> JoinState {
    if jt == JoiningType::T {
        (JoinState { actions: m.actions.insert(idx, Action::NoAction), ..m })
    } else {
        let e = spec_entry(m.state, jt);
        let rewrite = e.0 != Action::NoAction && m.prev is Some;
        let acts = if rewrite {
            m.actions.insert(m.prev->0, e.0)
        } else {
            m.actions
        };
        let brks = if rewrite {
            m.breaks.push(((m.prev->0) as usize, (idx + 1) as usize))
        } else {
            m.breaks
        };
        (JoinState { state: e.2, prev: Some(idx), actions: acts.insert(idx, e.1), breaks: brks })
    }
}

/// The machine run over a sequence of (class, index) pairs, left to right.
pub open spec fn join_run(pairs: Seq<(JoiningType, int)>, init: JoinState) -> JoinState
    decreases pairs.len(),
{
    if pairs.len() == 0 {
        init
    } else {
        join_step(join_run(pairs.drop_last(), init), pairs.last().0, pairs.last().1)
    }
}

/// The (class, index) pairs of a glyph sequence under a joining table.
pub open spec fn buffer_class_pairs(table: JoiningTable, infos: Seq<GlyphInfo>) -> Seq<
    (JoiningType, int),
> {
    Seq::new(
        infos.len(),
        |i: int| (spec_joining_type(table, infos[i].codepoint, infos[i].general_category), i),
    )
}

/// First non-transparent class in a context window, scanning from entry `k`.
pub open spec fn spec_ctx_first_class_from(
    table: JoiningTable,
    ctx: Seq<(u32, GeneralCategory)>,
    k: int,
) -> Option<JoiningType>
    decreases ctx.len() - k,
{
    if k < 0 || k >= ctx.len() {
        None
    } else {
        let jt = spec_joining_type(table, ctx[k].0, ctx[k].1);
        if jt == JoiningType::T {
            spec_ctx_first_class_from(table, ctx, k + 1)
        } else {
            Some(jt)
        }
    }
}

/// First non-transparent class in a context window, nearest first.
pub open spec fn spec_ctx_first_class(table: JoiningTable, ctx: Seq<(u32, GeneralCategory)>) -> Option<
    JoiningType,
> {
    spec_ctx_first_class_from(table, ctx, 0)
}

/// The machine's initial state: state 0, advanced once by the first
/// non-transparent codepoint of the pre-context, if there is one.
pub open spec fn spec_initial_state(table: JoiningTable, ctx: Seq<(u32, GeneralCategory)>) -> int {
    match spec_ctx_first_class(table, ctx) {
        Option::Some(jt) => spec_entry(0, jt).2,
        Option::None => 0,
    }
}

/// The post-context rewrite: the first non-transparent codepoint after the
/// buffer may retroactively overwrite the last non-transparent glyph's
/// action; it assigns nothing itself and records no break range.
pub open spec fn apply_post_context(m: JoinState, cls: Option<JoiningType>) -> JoinState {
    match cls {
        Option::Some(jt) => {
            let e = spec_entry(m.state, jt);
            if e.0 != Action::NoAction && m.prev is Some {
                (JoinState { actions: m.actions.insert(m.prev->0, e.0), ..m })
            } else {
                m
            }
        },
        Option::None => m,
    }
}

/// The complete joining pass over a buffer: pre-context start state, main
/// run, post-context rewrite.
pub open spec fn spec_joined(table: JoiningTable, b: Buffer) -> JoinState {
    apply_post_context(
        join_run(
            buffer_class_pairs(table, b.info@),
            initial_join_state(spec_initial_state(table, b.context_before@)),
        ),
        spec_ctx_first_class(table, b.context_after@),
    )
}

/// Scan the pre-context for the machine's initial state.
fn context_initial_state(buffer: &Buffer, table: &JoiningTable) -> (r: u8)
    ensures
        r as int == spec_initial_state(*table, buffer.context_before@),
        r < 7,
{
    let n = buffer.context_before.len();
    for k in 0..n
        invariant
            n == buffer.context_before@.len(),
            spec_ctx_first_class(*table, buffer.context_before@) == spec_ctx_first_class_from(
                *table,
                buffer.context_before@,
                k as int,
            ),
    {
        let (cp, gc) = buffer.context_before[k];
        let this_type = get_joining_type(cp, gc, table);
        if this_type != JoiningType::T {
            let entry = state_entry(0, this_type);
            return entry.2;
        }
    }
    0
}

/// Scan the post-context for its first non-transparent class.
fn context_tail_class(buffer: &Buffer, table: &JoiningTable) -> (r: Option<JoiningType>)
    ensures
        r == spec_ctx_first_class(*table, buffer.context_after@),
        r is Some ==> r->0 != JoiningType::T && r->0 != JoiningType::X,
{
    let n = buffer.context_after.len();
    for k in 0..n
        invariant
            n == buffer.context_after@.len(),
            spec_ctx_first_class(*table, buffer.context_after@) == spec_ctx_first_class_from(
                *table,
                buffer.context_after@,
                k as int,
            ),
    {
        let (cp, gc) = buffer.context_after[k];
        let this_type = get_joining_type(cp, gc, table);
        if this_type != JoiningType::T {
            return Some(this_type);
        }
    }
    None
}

/// Run the joining state machine over the buffer: every glyph receives the
/// action the ghost machine assigns it, every rewritten span is recorded as
/// unsafe to break, and nothing else of the buffer changes.
/// The joining machine run over the class pairs of the first `i` glyphs.
pub open spec fn spec_join_prefix(table: JoiningTable, b: Buffer, i: int) -> JoinState {
    join_run(
        buffer_class_pairs(table, b.info@).take(i),
        initial_join_state(spec_initial_state(table, b.context_before@)),
    )
}

/// Run the joining state machine over the buffer: every glyph receives the
/// action the ghost machine assigns it, every rewritten span is recorded as
/// unsafe to break, and nothing else of the buffer changes.
pub fn arabic_joining(buffer: &mut Buffer, table: &JoiningTable)
    ensures
        final(buffer).info@.len() == old(buffer).info@.len(),
        forall|k: int|
            0 <= k < old(buffer).info@.len() ==> #[trigger] final(buffer).info@[k] == (GlyphInfo {
                action: spec_joined(*table, *old(buffer)).actions[k],
                ..old(buffer).info@[k]
            }),
        forall|k: int|
            0 <= k < old(buffer).info@.len() ==> #[trigger] spec_joined(
                *table,
                *old(buffer),
            ).actions.contains_key(k),
        final(buffer).unsafe_ranges@ == old(buffer).unsafe_ranges@ + spec_joined(
            *table,
            *old(buffer),
        ).breaks,
        final(buffer).pos == old(buffer).pos,
        final(buffer).context_before == old(buffer).context_before,
        final(buffer).context_after == old(buffer).context_after,
        final(buffer).scratch_flags == old(buffer).scratch_flags,
{
    let ghost orig = *old(buffer);
    let ghost pairs = buffer_class_pairs(*table, orig.info@);
    let ghost init = initial_join_state(spec_initial_state(*table, orig.context_before@));

    let mut prev: Option<usize> = None;
    let mut state: u8 = context_initial_state(buffer, table);

    proof {
        assert(pairs.take(0) =~= Seq::<(JoiningType, int)>::empty());
        assert(buffer.unsafe_ranges@ =~= orig.unsafe_ranges@ + spec_join_prefix(
            *table,
            orig,
            0,
        ).breaks);
    }

    let len = buffer.len();
    let mut i: usize = 0;
    while i < len
        invariant
            i <= len,
            len == orig.info@.len(),
            buffer.info@.len() == len,
            buffer.pos == orig.pos,
            buffer.context_before == orig.context_before,
            buffer.context_after == orig.context_after,
            buffer.scratch_flags == orig.scratch_flags,
            pairs == buffer_class_pairs(*table, orig.info@),
            pairs.len() == len,
            forall|k: int| 0 <= k < len ==> (#[trigger] pairs[k]).1 == k && pairs[k].0
                == spec_joining_type(
                *table,
                orig.info@[k].codepoint,
                orig.info@[k].general_category,
            ),
            init == initial_join_state(spec_initial_state(*table, orig.context_before@)),
            state < 7,
            state as int == spec_join_prefix(*table, orig, i as int).state,
            (match prev {
                Option::Some(p) => spec_join_prefix(*table, orig, i as int).prev is Some
                    && spec_join_prefix(*table, orig, i as int).prev->0 == p as int && p < i,
                Option::None => spec_join_prefix(*table, orig, i as int).prev is None,
            }),
            forall|k: int|
                0 <= k < i ==> #[trigger] spec_join_prefix(
                    *table,
                    orig,
                    i as int,
                ).actions.contains_key(k),
            forall|k: int|
                #[trigger] spec_join_prefix(*table, orig, i as int).actions.contains_key(k)
                    ==> 0 <= k < i,
            forall|k: int|
                0 <= k < i ==> #[trigger] buffer.info@[k] == (GlyphInfo {
                    action: spec_join_prefix(*table, orig, i as int).actions[k],
                    ..orig.info@[k]
                }),
            forall|k: int| i <= k < len ==> #[trigger] buffer.info@[k] == orig.info@[k],
            buffer.unsafe_ranges@ == orig.unsafe_ranges@ + spec_join_prefix(
                *table,
                orig,
                i as int,
            ).breaks,
        decreases len - i,
    {
        proof {
            assert(pairs.take(i + 1).drop_last() =~= pairs.take(i as int));
            assert(pairs.take(i + 1).last() == pairs[i as int]);
        }
        let this_type = get_joining_type(
            buffer.info[i].codepoint,
            buffer.info[i].general_category,
            table,
        );

        if this_type == JoiningType::T {
            let updated = GlyphInfo { action: Action::NoAction, ..buffer.info[i] };
            buffer.info.set(i, updated);
        } else {
            let entry = state_entry(state, this_type);
            if entry.0 != Action::NoAction {
                if let Some(p) = prev {
                    let rewritten = GlyphInfo { action: entry.0, ..buffer.info[p] };
                    buffer.info.set(p, rewritten);
                    buffer.unsafe_to_break(p, i + 1);
                }
            }

            let assigned = GlyphInfo { action: entry.1, ..buffer.info[i] };
            buffer.info.set(i, assigned);

            prev = Some(i);
            state = entry.2;
        }
        proof {
            let m1 = spec_join_prefix(*table, orig, i as int);
            let m2 = spec_join_prefix(*table, orig, i + 1);
            assert(m2 == join_step(m1, pairs[i as int].0, pairs[i as int].1));
            assert(state as int == m2.state);
            assert forall|k: int| #[trigger] m2.actions.contains_key(k) implies 0 <= k < i + 1 by {
                if k != i {
                    assert(m1.actions.contains_key(k));
                }
            }
            assert forall|k: int| 0 <= k < i + 1 implies #[trigger] m2.actions.contains_key(
                k,
            ) by {
                if k < i {
                    assert(m1.actions.contains_key(k));
                }
            }
            assert forall|k: int| 0 <= k < i + 1 implies #[trigger] buffer.info@[k] == (GlyphInfo {
                action: m2.actions[k],
                ..orig.info@[k]
            }) by {
                if k < i {
                    if m1.prev is Some && k == m1.prev->0 {
                    } else {
                        assert(m2.actions[k] == m1.actions[k]);
                        assert(buffer.info@[k] == (GlyphInfo {
                            action: m1.actions[k],
                            ..orig.info@[k]
                        }));
                    }
                }
            }
            if m1.prev is Some && spec_entry(m1.state, pairs[i as int].0).0 != Action::NoAction
                && pairs[i as int].0 != JoiningType::T {
                assert(buffer.unsafe_ranges@ =~= orig.unsafe_ranges@ + m1.breaks.push(
                    ((m1.prev->0) as usize, (i + 1) as usize),
                ));
            }
            assert(buffer.unsafe_ranges@ == orig.unsafe_ranges@ + m2.breaks);
        }
        i = i + 1;
    }

    proof {
        assert(pairs.take(len as int) =~= pairs);
    }

    let tail = context_tail_class(buffer, table);
    if let Some(jt) = tail {
        let entry = state_entry(state, jt);
        if entry.0 != Action::NoAction {
            if let Some(p) = prev {
                let rewritten = GlyphInfo { action: entry.0, ..buffer.info[p] };
                buffer.info.set(p, rewritten);
            }
        }
    }

    proof {
        let m = spec_join_prefix(*table, orig, len as int);
        let fin = spec_joined(*table, orig);
        assert(fin == apply_post_context(m, spec_ctx_first_class(*table, orig.context_after@)));
        assert forall|k: int| 0 <= k < len implies #[trigger] fin.actions.contains_key(k) by {
            assert(m.actions.contains_key(k));
        }
        assert forall|k: int| 0 <= k < len implies #[trigger] buffer.info@[k] == (GlyphInfo {
            action: fin.actions[k],
            ..orig.info@[k]
        }) by {
            if m.prev is Some && k == m.prev->0 {
            } else {
                assert(fin.actions[k] == m.actions[k]);
            }
        }
    }
}

/// Whether the codepoint is a Mongolian free variation selector.
pub open spec fn spec_is_mvs(cp: u32) -> bool {
    0x180B <= cp && cp <= 0x180D
}

/// Action of position `k` after variation-selector propagation: a selector
/// takes the action of the nearest non-selector on its left (position 0
/// always keeps its own action).
pub open spec fn spec_mvs_action(infos: Seq<GlyphInfo>, k: int) -> Action
    decreases k,
{
    if 0 < k && spec_is_mvs(infos[k].codepoint) {
        spec_mvs_action(infos, k - 1)
    } else {
        infos[k].action
    }
}

/// Copy the shaping action from each base onto the Mongolian variation
/// selectors that follow it. Nothing else of the buffer changes.
pub fn mongolian_variation_selectors(buffer: &mut Buffer)
    ensures
        final(buffer).info@.len() == old(buffer).info@.len(),
        forall|k: int|
            0 <= k < old(buffer).info@.len() ==> #[trigger] final(buffer).info@[k] == (GlyphInfo {
                action: spec_mvs_action(old(buffer).info@, k),
                ..old(buffer).info@[k]
            }),
        final(buffer).pos == old(buffer).pos,
        final(buffer).context_before == old(buffer).context_before,
        final(buffer).context_after == old(buffer).context_after,
        final(buffer).scratch_flags == old(buffer).scratch_flags,
        final(buffer).unsafe_ranges == old(buffer).unsafe_ranges,
{
    let ghost orig = *old(buffer);
    let len = buffer.len();
    let mut i: usize = 1;
    while i < len
        invariant
            1 <= i || len == 0,
            i <= len || len == 0,
            len == orig.info@.len(),
            buffer.info@.len() == len,
            buffer.pos == orig.pos,
            buffer.context_before == orig.context_before,
            buffer.context_after == orig.context_after,
            buffer.scratch_flags == orig.scratch_flags,
            buffer.unsafe_ranges == orig.unsafe_ranges,
            forall|k: int|
                0 <= k < i && k < len ==> #[trigger] buffer.info@[k] == (GlyphInfo {
                    action: spec_mvs_action(orig.info@, k),
                    ..orig.info@[k]
                }),
            forall|k: int| i <= k < len ==> #[trigger] buffer.info@[k] == orig.info@[k],
        decreases len - i,
    {
        let cp = buffer.info[i].codepoint;
        if 0x180B <= cp && cp <= 0x180D {
            let carried = buffer.info[i - 1].action;
            let updated = GlyphInfo { action: carried, ..buffer.info[i] };
            buffer.info.set(i, updated);
        }
        i = i + 1;
    }
}

/// The glyph records as they stand after the joining pass alone.
pub open spec fn spec_joined_infos(table: JoiningTable, b: Buffer) -> Seq<GlyphInfo> {
    Seq::new(
        b.info@.len(),
        |k: int| GlyphInfo { action: spec_joined(table, b).actions[k], ..b.info@[k] },
    )
}

/// The action position `k` ends up with after `setup_masks`: the joining
/// machine's assignment, propagated through variation selectors when the
/// script is Mongolian.
pub open spec fn spec_setup_action(table: JoiningTable, script: Script, b: Buffer, k: int) -> Action {
    if script == Script::Mongolian {
        spec_mvs_action(spec_joined_infos(table, b), k)
    } else {
        spec_joined(table, b).actions[k]
    }
}

/// Run the joining pass (and, for Mongolian, selector propagation), then
/// arm each glyph's feature mask from the plan: the mask gains exactly the
/// plan's bits for the glyph's action, and a `NoAction` glyph gains none.
pub fn setup_masks(plan: &ArabicShapePlan, script: Script, buffer: &mut Buffer, table: &JoiningTable)
    ensures
        final(buffer).info@.len() == old(buffer).info@.len(),
        forall|k: int|
            0 <= k < old(buffer).info@.len() ==> #[trigger] final(buffer).info@[k] == (GlyphInfo {
                action: spec_setup_action(*table, script, *old(buffer), k),
                mask: old(buffer).info@[k].mask | plan.mask_array@[spec_setup_action(
                    *table,
                    script,
                    *old(buffer),
                    k,
                ).spec_index()],
                ..old(buffer).info@[k]
            }),
        forall|k: int|
            0 <= k < old(buffer).info@.len() && plan.wf() && spec_setup_action(
                *table,
                script,
                *old(buffer),
                k,
            ) == Action::NoAction ==> #[trigger] final(buffer).info@[k].mask == old(
                buffer,
            ).info@[k].mask,
        final(buffer).unsafe_ranges@ == old(buffer).unsafe_ranges@ + spec_joined(
            *table,
            *old(buffer),
        ).breaks,
        final(buffer).pos == old(buffer).pos,
        final(buffer).context_before == old(buffer).context_before,
        final(buffer).context_after == old(buffer).context_after,
        final(buffer).scratch_flags == old(buffer).scratch_flags,
{
    let ghost orig = *old(buffer);
    arabic_joining(buffer, table);
    proof {
        assert(buffer.info@ =~= spec_joined_infos(*table, orig));
    }
    if script == Script::Mongolian {
        mongolian_variation_selectors(buffer);
    }
    proof {
        assert forall|k: int| 0 <= k < orig.info@.len() implies #[trigger] buffer.info@[k]
            == (GlyphInfo {
            action: spec_setup_action(*table, script, orig, k),
            ..orig.info@[k]
        }) by {
            assert(spec_joined_infos(*table, orig)[k] == (GlyphInfo {
                action: spec_joined(*table, orig).actions[k],
                ..orig.info@[k]
            }));
        }
    }

    let ghost mid = *buffer;
    let len = buffer.len();
    let mut i: usize = 0;
    while i < len
        invariant
            i <= len,
            len == mid.info@.len(),
            buffer.info@.len() == len,
            buffer.pos == mid.pos,
            buffer.context_before == mid.context_before,
            buffer.context_after == mid.context_after,
            buffer.scratch_flags == mid.scratch_flags,
            buffer.unsafe_ranges == mid.unsafe_ranges,
            forall|k: int|
                0 <= k < i ==> #[trigger] buffer.info@[k] == (GlyphInfo {
                    mask: mid.info@[k].mask | plan.mask_array@[mid.info@[k].action.spec_index()],
                    ..mid.info@[k]
                }),
            forall|k: int| i <= k < len ==> #[trigger] buffer.info@[k] == mid.info@[k],
        decreases len - i,
    {
        let idx = buffer.info[i].action.index();
        let armed = GlyphInfo { mask: buffer.info[i].mask | plan.mask_array[idx], ..buffer.info[i] };
        buffer.info.set(i, armed);
        i = i + 1;
    }

    proof {
        lemma_or_zero_mask(plan.mask_array@[7]);
        assert forall|k: int| 0 <= k < orig.info@.len() implies #[trigger] buffer.info@[k]
            == (GlyphInfo {
            action: spec_setup_action(*table, script, orig, k),
            mask: orig.info@[k].mask | plan.mask_array@[spec_setup_action(
                *table,
                script,
                orig,
                k,
            ).spec_index()],
            ..orig.info@[k]
        }) by {
            assert(mid.info@[k] == (GlyphInfo {
                action: spec_setup_action(*table, script, orig, k),
                ..orig.info@[k]
            }));
        }
        assert forall|k: int|
            0 <= k < orig.info@.len() && plan.wf() && spec_setup_action(*table, script, orig, k)
                == Action::NoAction implies #[trigger] buffer.info@[k].mask
            == orig.info@[k].mask by {
            lemma_or_zero_mask(orig.info@[k].mask);
        }
    }
}

/// Any mask is unchanged by adding the empty bit set.
proof fn lemma_or_zero_mask(x: u32)
    ensures
        x | 0 == x,
{
    assert(x | 0 == x) by (bit_vector);
}

/// Both actions of a transition-table cell are join actions, and the next
/// state is one of the seven states.
pub proof fn lemma_entry_valid(state: int, jt: JoiningType)
    ensures
        spec_entry(state, jt).0.is_join_action(),
        spec_entry(state, jt).1.is_join_action(),
        0 <= spec_entry(state, jt).2 < 7,
{
}

/// Over the class pairs of a buffer prefix, the machine assigns an action to
/// exactly the prefix's positions, every assigned action is a join action,
/// the last non-transparent index lies in the prefix, and the state is one
/// of the seven.
pub proof fn lemma_prefix_shape(table: JoiningTable, b: Buffer, i: int)
    requires
        0 <= i <= b.info@.len(),
    ensures
        forall|k: int| 0 <= k < i ==> #[trigger] spec_join_prefix(table, b, i).actions.contains_key(k),
        forall|k: int| #[trigger] spec_join_prefix(table, b, i).actions.contains_key(k) ==> 0 <= k < i,
        forall|k: int|
            #[trigger] spec_join_prefix(table, b, i).actions.contains_key(k) ==> spec_join_prefix(
                table,
                b,
                i,
            ).actions[k].is_join_action(),
        spec_join_prefix(table, b, i).prev is Some ==> 0 <= spec_join_prefix(table, b, i).prev->0
            < i,
        0 <= spec_join_prefix(table, b, i).state < 7,
    decreases i,
{
    let pairs = buffer_class_pairs(table, b.info@);
    if i == 0 {
        assert(pairs.take(0) =~= Seq::<(JoiningType, int)>::empty());
        lemma_entry_valid(0, spec_ctx_first_class(table, b.context_before@)->0);
    } else {
        lemma_prefix_shape(table, b, i - 1);
        assert(pairs.take(i).drop_last() =~= pairs.take(i - 1));
        assert(pairs.take(i).last() == pairs[i - 1]);
        let m1 = spec_join_prefix(table, b, i - 1);
        let m2 = spec_join_prefix(table, b, i);
        assert(m2 == join_step(m1, pairs[i - 1].0, pairs[i - 1].1));
        lemma_entry_valid(m1.state, pairs[i - 1].0);
        assert forall|k: int| #[trigger] m2.actions.contains_key(k) implies 0 <= k < i by {
            if k != i - 1 {
                assert(m1.actions.contains_key(k));
            }
        }
        assert forall|k: int| 0 <= k < i implies #[trigger] m2.actions.contains_key(k) by {
            if k < i - 1 {
                assert(m1.actions.contains_key(k));
            }
        }
        assert forall|k: int| #[trigger] m2.actions.contains_key(k) implies m2.actions[k].is_join_action() by {
            if pairs[i - 1].0 == JoiningType::T {
                if k != i - 1 {
                    assert(m2.actions[k] == m1.actions[k]);
                }
            } else {
                if k != i - 1 && !(m1.prev is Some && k == m1.prev->0) {
                    assert(m2.actions[k] == m1.actions[k]);
                }
            }
        }
    }
}

/// A propagated action is always one of the actions already present.
proof fn lemma_mvs_valid(infos: Seq<GlyphInfo>, k: int)
    requires
        0 <= k < infos.len(),
        forall|j: int| 0 <= j < infos.len() ==> (#[trigger] infos[j].action).is_join_action(),
    ensures
        spec_mvs_action(infos, k).is_join_action(),
    decreases k,
{
    if 0 < k && spec_is_mvs(infos[k].codepoint) {
        lemma_mvs_valid(infos, k - 1);
    }
}

/// Law: after the mask setup every position carries exactly one of the
/// eight join actions in its action byte, never a stretch tag.
pub proof fn lemma_setup_action_is_join_action(table: JoiningTable, script: Script, b: Buffer)
    ensures
        forall|k: int|
            0 <= k < b.info@.len() ==> (#[trigger] spec_setup_action(
                table,
                script,
                b,
                k,
            )).is_join_action(),
{
    let len = b.info@.len() as int;
    lemma_prefix_shape(table, b, len);
    let pairs = buffer_class_pairs(table, b.info@);
    assert(pairs.take(len) =~= pairs);
    let m = spec_join_prefix(table, b, len);
    let fin = spec_joined(table, b);
    assert(fin == apply_post_context(m, spec_ctx_first_class(table, b.context_after@)));
    lemma_entry_valid(m.state, spec_ctx_first_class(table, b.context_after@)->0);
    assert forall|k: int| 0 <= k < len implies (#[trigger] fin.actions[k]).is_join_action() by {
        if m.prev is Some && k == m.prev->0 {
        } else {
            assert(fin.actions[k] == m.actions[k]);
            assert(m.actions.contains_key(k));
        }
    }
    assert forall|k: int| 0 <= k < len implies (#[trigger] spec_setup_action(
        table,
        script,
        b,
        k,
    )).is_join_action() by {
        if script == Script::Mongolian {
            let joined = spec_joined_infos(table, b);
            assert(forall|j: int|
                0 <= j < joined.len() ==> (#[trigger] joined[j].action) == fin.actions[j]);
            lemma_mvs_valid(joined, k);
        }
    }
}

/// Propagation reads only codepoints and actions.
proof fn lemma_mvs_congruent(s1: Seq<GlyphInfo>, s2: Seq<GlyphInfo>, k: int)
    requires
        s1.len() == s2.len(),
        0 <= k < s1.len(),
        forall|j: int|
            0 <= j < s1.len() ==> (#[trigger] s1[j]).codepoint == s2[j].codepoint && s1[j].action
                == s2[j].action,
    ensures
        spec_mvs_action(s1, k) == spec_mvs_action(s2, k),
    decreases k,
{
    if 0 < k && spec_is_mvs(s1[k].codepoint) {
        lemma_mvs_congruent(s1, s2, k - 1);
    }
}

/// Law: the actions the mask setup assigns depend only on the codepoints,
/// general categories and context windows, none of which the pass itself
/// changes. Running the pass twice on the same text therefore assigns
/// identical actions.
pub proof fn lemma_setup_actions_deterministic(
    table: JoiningTable,
    script: Script,
    b1: Buffer,
    b2: Buffer,
)
    requires
        b1.info@.len() == b2.info@.len(),
        forall|k: int|
            0 <= k < b1.info@.len() ==> (#[trigger] b1.info@[k]).codepoint == b2.info@[k].codepoint
                && b1.info@[k].general_category == b2.info@[k].general_category,
        b1.context_before@ == b2.context_before@,
        b1.context_after@ == b2.context_after@,
    ensures
        forall|k: int|
            0 <= k < b1.info@.len() ==> #[trigger] spec_setup_action(table, script, b1, k)
                == spec_setup_action(table, script, b2, k),
{
    assert(buffer_class_pairs(table, b1.info@) =~= buffer_class_pairs(table, b2.info@));
    assert(spec_joined(table, b1) == spec_joined(table, b2));
    assert forall|k: int| 0 <= k < b1.info@.len() implies #[trigger] spec_setup_action(
        table,
        script,
        b1,
        k,
    ) == spec_setup_action(table, script, b2, k) by {
        if script == Script::Mongolian {
            let j1 = spec_joined_infos(table, b1);
            let j2 = spec_joined_infos(table, b2);
            assert(forall|j: int|
                0 <= j < j1.len() ==> (#[trigger] j1[j]).codepoint == j2[j].codepoint
                    && j1[j].action == j2[j].action);
            lemma_mvs_congruent(j1, j2, k);
        }
    }
}

/// The pairs with the transparent entries removed, order kept.
pub open spec fn non_transparent(pairs: Seq<(JoiningType, int)>) -> Seq<(JoiningType, int)>
    decreases pairs.len(),
{
    if pairs.len() == 0 {
        pairs
    } else {
        let rest = non_transparent(pairs.drop_last());
        if pairs.last().0 != JoiningType::T {
            rest.push(pairs.last())
        } else {
            rest
        }
    }
}

/// Every entry of the filtered sequence is an entry of the unfiltered one.
proof fn lemma_non_transparent_sub(pairs: Seq<(JoiningType, int)>)
    ensures
        forall|j: int|
            0 <= j < non_transparent(pairs).len() ==> exists|a: int|
                0 <= a < pairs.len() && pairs[a] == #[trigger] non_transparent(pairs)[j]
                    && pairs[a].0 != JoiningType::T,
    decreases pairs.len(),
{
    if pairs.len() > 0 {
        lemma_non_transparent_sub(pairs.drop_last());
        let rest = non_transparent(pairs.drop_last());
        assert forall|j: int| 0 <= j < non_transparent(pairs).len() implies exists|a: int|
            0 <= a < pairs.len() && pairs[a] == #[trigger] non_transparent(pairs)[j] && pairs[a].0
                != JoiningType::T by {
            if j < rest.len() {
                let a = choose|a: int|
                    0 <= a < pairs.drop_last().len() && pairs.drop_last()[a] == rest[j]
                        && pairs.drop_last()[a].0 != JoiningType::T;
                assert(pairs[a] == non_transparent(pairs)[j] && pairs[a].0 != JoiningType::T);
            } else {
                assert(pairs[pairs.len() - 1] == non_transparent(pairs)[j]);
            }
        }
    }
}

/// Law: transparent characters are invisible to the machine. Running over a
/// sequence with transparent entries interleaved gives every transparent
/// position `NoAction`, and produces the same final state, the same last
/// non-transparent position, the same recorded spans and the same actions
/// at the non-transparent positions as running over the sequence with the
/// transparent entries removed.
pub proof fn lemma_transparent_entries_invisible(pairs: Seq<(JoiningType, int)>, init: JoinState)
    requires
        init.prev is None,
        forall|a: int, c: int|
            0 <= a < c < pairs.len() ==> (#[trigger] pairs[a]).1 != (#[trigger] pairs[c]).1,
    ensures
        join_run(pairs, init).state == join_run(non_transparent(pairs), init).state,
        join_run(pairs, init).prev == join_run(non_transparent(pairs), init).prev,
        join_run(pairs, init).breaks == join_run(non_transparent(pairs), init).breaks,
        forall|j: int|
            0 <= j < pairs.len() && (#[trigger] pairs[j]).0 == JoiningType::T ==> join_run(
                pairs,
                init,
            ).actions.contains_key(pairs[j].1) && join_run(pairs, init).actions[pairs[j].1]
                == Action::NoAction,
        forall|j: int|
            0 <= j < pairs.len() && (#[trigger] pairs[j]).0 != JoiningType::T ==> join_run(
                pairs,
                init,
            ).actions.contains_key(pairs[j].1) && join_run(
                non_transparent(pairs),
                init,
            ).actions.contains_key(pairs[j].1) && join_run(pairs, init).actions[pairs[j].1]
                == join_run(non_transparent(pairs), init).actions[pairs[j].1],
        join_run(pairs, init).prev is Some ==> exists|a: int|
            0 <= a < pairs.len() && (#[trigger] pairs[a]).1 == join_run(pairs, init).prev->0
                && pairs[a].0 != JoiningType::T,
    decreases pairs.len(),
{
    if pairs.len() > 0 {
        let dl = pairs.drop_last();
        assert(forall|a: int, c: int|
            0 <= a < c < dl.len() ==> (#[trigger] dl[a]).1 != (#[trigger] dl[c]).1);
        lemma_transparent_entries_invisible(dl, init);
        let full1 = join_run(dl, init);
        let filt1 = join_run(non_transparent(dl), init);
        let full2 = join_run(pairs, init);
        let last = pairs.last();
        assert(full2 == join_step(full1, last.0, last.1));
        if last.0 == JoiningType::T {
            assert(non_transparent(pairs) == non_transparent(dl));
            assert forall|j: int|
                0 <= j < pairs.len() && (#[trigger] pairs[j]).0 != JoiningType::T implies full2
                .actions.contains_key(pairs[j].1) && join_run(
                non_transparent(pairs),
                init,
            ).actions.contains_key(pairs[j].1) && full2.actions[pairs[j].1]
                == join_run(non_transparent(pairs), init).actions[pairs[j].1] by {
                assert(j < dl.len() && dl[j] == pairs[j]);
                assert(pairs[j].1 != last.1);
                assert(full1.actions.contains_key(pairs[j].1));
            }
            assert forall|j: int|
                0 <= j < pairs.len() && (#[trigger] pairs[j]).0 == JoiningType::T implies full2
                .actions.contains_key(pairs[j].1) && full2.actions[pairs[j].1]
                == Action::NoAction by {
                if j < dl.len() {
                    assert(dl[j] == pairs[j]);
                    assert(pairs[j].1 != last.1);
                }
            }
        } else {
            assert(non_transparent(pairs) == non_transparent(dl).push(last));
            assert(non_transparent(pairs).drop_last() =~= non_transparent(dl));
            let filt2 = join_run(non_transparent(pairs), init);
            assert(filt2 == join_step(filt1, last.0, last.1));
            if full1.prev is Some {
                let a = choose|a: int|
                    0 <= a < dl.len() && (#[trigger] dl[a]).1 == full1.prev->0 && dl[a].0
                        != JoiningType::T;
                assert(pairs[a] == dl[a]);
            }
            assert forall|j: int|
                0 <= j < pairs.len() && (#[trigger] pairs[j]).0 != JoiningType::T implies full2
                .actions.contains_key(pairs[j].1) && filt2.actions.contains_key(pairs[j].1)
                && full2.actions[pairs[j].1] == filt2.actions[pairs[j].1] by {
                if j < dl.len() {
                    assert(dl[j] == pairs[j]);
                    assert(pairs[j].1 != last.1);
                    if full1.prev is Some && pairs[j].1 == full1.prev->0 {
                    } else {
                        assert(full1.actions.contains_key(pairs[j].1));
                        assert(full2.actions[pairs[j].1] == full1.actions[pairs[j].1]);
                        assert(filt2.actions[pairs[j].1] == filt1.actions[pairs[j].1]);
                    }
                }
            }
            assert forall|j: int|
                0 <= j < pairs.len() && (#[trigger] pairs[j]).0 == JoiningType::T implies full2
                .actions.contains_key(pairs[j].1) && full2.actions[pairs[j].1]
                == Action::NoAction by {
                assert(j < dl.len() && dl[j] == pairs[j]);
                assert(pairs[j].1 != last.1);
                if full1.prev is Some {
                    let a = choose|a: int|
                        0 <= a < dl.len() && (#[trigger] dl[a]).1 == full1.prev->0 && dl[a].0
                            != JoiningType::T;
                    assert(pairs[j].1 != full1.prev->0);
                }
            }
        }
    }
}

} // verus!
