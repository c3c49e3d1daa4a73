//! TR53 mark reordering: within a designated range, move each leading run
//! of Arabic modifier combining marks of class 220 or 230 to the front of
//! the marks below it, renumbering the moved group so the range stays
//! sorted by modified combining class.

use vstd::prelude::*;
use vstd::seq_lib::lemma_multiset_commutative;
use crate::buffer::{Buffer, GlyphInfo, spec_min_cluster};
use crate::unicode::{is_modifier_combining_mark, spec_is_modifier_combining_mark, CCC22, CCC26};

verus! {

broadcast use vstd::group_vstd_default;

/// The codepoints of a glyph sequence.
pub open spec fn spec_codepoints(s: Seq<GlyphInfo>) -> Seq<u32> {
    Seq::new(s.len(), |k: int| s[k].codepoint)
}

/// Modified combining classes non-decreasing over `[a, b)`.
pub open spec fn spec_ccc_sorted(s: Seq<GlyphInfo>, a: int, b: int) -> bool {
    forall|k1: int, k2: int|
        a <= k1 < k2 < b ==> (#[trigger] s[k1]).modified_combining_class
            <= (#[trigger] s[k2]).modified_combining_class
}

/// Whether the record is a TR53 modifier mark of the given class.
pub open spec fn spec_is_group_mark(g: GlyphInfo, cc: u8) -> bool {
    g.modified_combining_class == cc && spec_is_modifier_combining_mark(g.codepoint)
}

/// First position at or after `i` whose class is at least `cc`, or `end`.
pub open spec fn spec_scan(infos: Seq<GlyphInfo>, i: int, end: int, cc: u8) -> int
    decreases end - i,
{
    if i >= end {
        end
    } else if infos[i].modified_combining_class < cc {
        spec_scan(infos, i + 1, end, cc)
    } else {
        i
    }
}

/// End of the maximal group of class-`cc` modifier marks starting at `j`.
pub open spec fn spec_group_end(infos: Seq<GlyphInfo>, j: int, end: int, cc: u8) -> int
    decreases end - j,
{
    if j >= end {
        j
    } else if spec_is_group_mark(infos[j], cc) {
        spec_group_end(infos, j + 1, end, cc)
    } else {
        j
    }
}

/// What one pass for target class `cc` does, as a function on the glyph
/// sequence: scan from `i_in` to the first class at least `cc`; if that
/// position opens a group of class-`cc` modifier marks, merge the clusters
/// of `[start, j)`, rotate the group to `start`, and renumber it to
/// `new_cc`; otherwise change nothing. Returns the new sequence and the
/// `(start, i)` the next pass continues from.
pub open spec fn spec_pass_result(
    infos: Seq<GlyphInfo>,
    start: int,
    i_in: int,
    end: int,
    cc: u8,
    new_cc: u8,
) -> (Seq<GlyphInfo>, int, int) {
    let i = spec_scan(infos, i_in, end, cc);
    if i == end {
        (infos, start, i)
    } else if infos[i].modified_combining_class != cc {
        (infos, start, i)
    } else {
        let j = spec_group_end(infos, i, end, cc);
        if i == j {
            (infos, start, i)
        } else {
            let merged = Seq::new(
                infos.len(),
                |m: int|
                    if start <= m < j {
                        GlyphInfo {
                            cluster: spec_min_cluster(infos, start, j) as u32,
                            ..infos[m]
                        }
                    } else {
                        infos[m]
                    },
            );
            let out = Seq::new(
                infos.len(),
                |m: int|
                    if start <= m < start + (j - i) {
                        GlyphInfo {
                            modified_combining_class: new_cc,
                            ..merged[i + (m - start)]
                        }
                    } else if start + (j - i) <= m < j {
                        merged[m - (j - i)]
                    } else {
                        merged[m]
                    },
            );
            (out, start + (j - i), j)
        }
    }
}

/// One pass for one target class `cc`: scan forward from `i_in` to the
/// first position of class at least `cc`; if it opens a run of modifier
/// marks of exactly class `cc`, merge clusters over `[start, j)`, rotate
/// the run to `start`, and renumber it to `new_cc`. Returns the new
/// `(start, i)` for the next pass.
#[verifier::rlimit(100)]
fn reorder_pass(
    buffer: &mut Buffer,
    start: usize,
    i_in: usize,
    end: usize,
    cc: u8,
    new_cc: u8,
) -> (r: (usize, usize))
    requires
        start <= i_in <= end <= old(buffer).info@.len(),
        new_cc < cc,
        new_cc <= 26,
        forall|k: int|
            start <= k < i_in ==> (#[trigger] old(buffer).info@[k]).modified_combining_class < cc,
    ensures
        start <= r.0,
        r.0 <= r.1,
        r.1 <= end,
        final(buffer).info@ == spec_pass_result(
            old(buffer).info@,
            start as int,
            i_in as int,
            end as int,
            cc,
            new_cc,
        ).0,
        r.0 == spec_pass_result(old(buffer).info@, start as int, i_in as int, end as int, cc, new_cc).1,
        r.1 == spec_pass_result(old(buffer).info@, start as int, i_in as int, end as int, cc, new_cc).2,
        final(buffer).info@.len() == old(buffer).info@.len(),
        forall|k: int|
            0 <= k < old(buffer).info@.len() && !(start <= k < end) ==> #[trigger] final(buffer).info@[k] == old(buffer).info@[k],
        final(buffer).pos == old(buffer).pos,
        final(buffer).context_before == old(buffer).context_before,
        final(buffer).context_after == old(buffer).context_after,
        final(buffer).scratch_flags == old(buffer).scratch_flags,
        final(buffer).unsafe_ranges == old(buffer).unsafe_ranges,
        spec_codepoints(final(buffer).info@.subrange(start as int, end as int)).to_multiset()
            == spec_codepoints(old(buffer).info@.subrange(start as int, end as int)).to_multiset(),
        forall|k: int|
            start <= k < r.1 ==> ((#[trigger] final(buffer).info@[k]).modified_combining_class < cc
                || final(buffer).info@[k].modified_combining_class == new_cc),
        forall|k: int|
            start <= k < r.0 ==> (#[trigger] final(buffer).info@[k]).modified_combining_class
                == new_cc,
        (forall|k: int|
            i_in <= k < end ==> !spec_is_group_mark(#[trigger] old(buffer).info@[k], cc))
            ==> *final(buffer) == *old(buffer) && r.0 == start,
        (spec_ccc_sorted(old(buffer).info@, start as int, end as int) && (forall|k: int|
            start <= k < end ==> (#[trigger] old(buffer).info@[k]).modified_combining_class > 26))
            ==> spec_ccc_sorted(final(buffer).info@, start as int, end as int) && (forall|k: int|
            r.0 <= k < end ==> (#[trigger] final(buffer).info@[k]).modified_combining_class > 26),
{
    let ghost orig = *old(buffer);

    let mut i = i_in;
    while i < end && buffer.info[i].modified_combining_class < cc
        invariant
            i_in <= i <= end,
            end <= buffer.info@.len(),
            *buffer == orig,
            spec_scan(orig.info@, i_in as int, end as int, cc) == spec_scan(
                orig.info@,
                i as int,
                end as int,
                cc,
            ),
            forall|k: int|
                i_in <= k < i ==> (#[trigger] buffer.info@[k]).modified_combining_class < cc,
        decreases end - i,
    {
        i = i + 1;
    }

    proof {
        assert(spec_scan(orig.info@, i_in as int, end as int, cc) == i);
    }
    if i == end {
        return (start, i);
    }
    if buffer.info[i].modified_combining_class > cc {
        return (start, i);
    }

    let mut j = i;
    while j < end && buffer.info[j].modified_combining_class == cc && is_modifier_combining_mark(
        buffer.info[j].codepoint,
    )
        invariant
            i <= j <= end,
            end <= buffer.info@.len(),
            *buffer == orig,
            spec_group_end(orig.info@, i as int, end as int, cc) == spec_group_end(
                orig.info@,
                j as int,
                end as int,
                cc,
            ),
            forall|k: int| i <= k < j ==> spec_is_group_mark(#[trigger] buffer.info@[k], cc),
        decreases end - j,
    {
        j = j + 1;
    }

    proof {
        assert(spec_group_end(orig.info@, i as int, end as int, cc) == j);
    }
    if i == j {
        return (start, i);
    }

    // The run [i, j) of class-cc modifier marks moves to `start`.
    buffer.merge_clusters(start, j);
    let ghost merged = *buffer;

    let mut temp: Vec<GlyphInfo> = Vec::new();
    let mut k = i;
    while k < j
        invariant
            i <= k <= j <= buffer.info@.len(),
            *buffer == merged,
            temp@.len() == k - i,
            forall|t: int| 0 <= t < k - i ==> #[trigger] temp@[t] == merged.info@[i + t],
        decreases j - k,
    {
        temp.push(buffer.info[k]);
        k = k + 1;
    }
    let mut k = start;
    while k < i
        invariant
            start <= k <= i <= j <= buffer.info@.len(),
            *buffer == merged,
            temp@.len() == (j - i) + (k - start),
            forall|t: int| 0 <= t < j - i ==> #[trigger] temp@[t] == merged.info@[i + t],
            forall|t: int|
                j - i <= t < (j - i) + (k - start) ==> #[trigger] temp@[t] == merged.info@[start + (
                t - (j - i))],
        decreases i - k,
    {
        temp.push(buffer.info[k]);
        k = k + 1;
    }

    let mut k: usize = 0;
    while k < j - start
        invariant
            0 <= k <= j - start,
            start <= i < j <= buffer.info@.len(),
            buffer.info@.len() == merged.info@.len(),
            buffer.pos == merged.pos,
            buffer.context_before == merged.context_before,
            buffer.context_after == merged.context_after,
            buffer.scratch_flags == merged.scratch_flags,
            buffer.unsafe_ranges == merged.unsafe_ranges,
            temp@.len() == j - start,
            forall|t: int| 0 <= t < j - i ==> #[trigger] temp@[t] == merged.info@[i + t],
            forall|t: int|
                j - i <= t < j - start ==> #[trigger] temp@[t] == merged.info@[start + (t - (j
                    - i))],
            forall|m: int|
                start <= m < start + k ==> #[trigger] buffer.info@[m] == temp@[m - start],
            forall|m: int|
                0 <= m < buffer.info@.len() && !(start <= m < start + k) ==> #[trigger] buffer.info@[m]
                    == merged.info@[m],
        decreases j - start - k,
    {
        let g = temp[k];
        buffer.info.set(start + k, g);
        k = k + 1;
    }
    let ghost rotated = *buffer;

    let mut k: usize = 0;
    while k < j - i
        invariant
            0 <= k <= j - i,
            start <= i < j <= buffer.info@.len(),
            buffer.info@.len() == rotated.info@.len(),
            buffer.pos == rotated.pos,
            buffer.context_before == rotated.context_before,
            buffer.context_after == rotated.context_after,
            buffer.scratch_flags == rotated.scratch_flags,
            buffer.unsafe_ranges == rotated.unsafe_ranges,
            forall|m: int|
                start <= m < start + k ==> #[trigger] buffer.info@[m] == (GlyphInfo {
                    modified_combining_class: new_cc,
                    ..rotated.info@[m]
                }),
            forall|m: int|
                0 <= m < buffer.info@.len() && !(start <= m < start + k) ==> #[trigger] buffer.info@[m]
                    == rotated.info@[m],
        decreases j - i - k,
    {
        let g = GlyphInfo { modified_combining_class: new_cc, ..buffer.info[start + k] };
        buffer.info.set(start + k, g);
        k = k + 1;
    }

    let new_start = start + (j - i);

    proof {
        let fin = buffer.info@;
        let s = start as int;
        let e = end as int;
        let ii = i as int;
        let jj = j as int;
        let bl = jj - ii;

        // Cluster merging changed nothing but cluster ids.
        assert forall|m: int| 0 <= m < merged.info@.len() implies (#[trigger] merged.info@[m]).codepoint
            == orig.info@[m].codepoint && merged.info@[m].modified_combining_class
            == orig.info@[m].modified_combining_class by {
            if s <= m < jj {
                assert(merged.info@[m] == (GlyphInfo {
                    cluster: spec_min_cluster(orig.info@, s, jj) as u32,
                    ..orig.info@[m]
                }));
            }
        }

        // The classes seen before the run are below the target class.
        assert(forall|m: int|
            s <= m < ii ==> (#[trigger] orig.info@[m]).modified_combining_class < cc);

        // What each region of the result holds.
        assert forall|m: int| s <= m < s + bl implies #[trigger] fin[m] == (GlyphInfo {
            modified_combining_class: new_cc,
            ..merged.info@[ii + (m - s)]
        }) by {
            assert(rotated.info@[m] == temp@[m - s]);
            assert(temp@[m - s] == merged.info@[ii + (m - s)]);
        }
        assert forall|m: int| s + bl <= m < jj implies #[trigger] fin[m] == merged.info@[m
            - bl] by {
            assert(fin[m] == rotated.info@[m]);
            assert(rotated.info@[m] == temp@[m - s]);
            assert(temp@[m - s] == merged.info@[s + ((m - s) - bl)]);
        }
        assert(forall|m: int| jj <= m < fin.len() ==> #[trigger] fin[m] == merged.info@[m]);
        assert(forall|m: int|
            0 <= m < fin.len() && !(s <= m < e) ==> #[trigger] fin[m] == orig.info@[m]);

        // The codepoint multiset over [start, end) is a rearrangement.
        let ca = spec_codepoints(orig.info@.subrange(s, ii));
        let cb = spec_codepoints(orig.info@.subrange(ii, jj));
        let cd = spec_codepoints(orig.info@.subrange(jj, e));
        assert(spec_codepoints(fin.subrange(s, e)) =~= cb + ca + cd);
        assert(spec_codepoints(orig.info@.subrange(s, e)) =~= ca + cb + cd);
        lemma_multiset_commutative(cb + ca, cd);
        lemma_multiset_commutative(cb, ca);
        lemma_multiset_commutative(ca + cb, cd);
        lemma_multiset_commutative(ca, cb);
        assert(cb.to_multiset().add(ca.to_multiset()) =~= ca.to_multiset().add(cb.to_multiset()));
        assert(spec_codepoints(fin.subrange(s, e)).to_multiset() == spec_codepoints(
            orig.info@.subrange(s, e),
        ).to_multiset());

        // The change case only arises when a group mark exists.
        assert(spec_is_group_mark(orig.info@[ii], cc));

        // The result is exactly the pass function's rotation-plus-renumbering.
        let pr = spec_pass_result(orig.info@, s, i_in as int, e, cc, new_cc);
        let sm = Seq::new(
            orig.info@.len(),
            |m: int|
                if s <= m < jj {
                    GlyphInfo { cluster: spec_min_cluster(orig.info@, s, jj) as u32, ..orig.info@[m] }
                } else {
                    orig.info@[m]
                },
        );
        assert forall|m: int| 0 <= m < merged.info@.len() implies #[trigger] merged.info@[m]
            == sm[m] by {}
        assert(merged.info@ =~= sm);
        assert forall|m: int| 0 <= m < fin.len() implies #[trigger] fin[m] == pr.0[m] by {
            if s <= m < s + bl {
            } else if s + bl <= m < jj {
            } else {
            }
        }
        assert(fin =~= pr.0);
        assert(pr.1 == s + bl && pr.2 == jj);

        // The scanned region stays below the next target class.
        assert forall|m: int| s <= m < jj implies ((#[trigger] fin[m]).modified_combining_class < cc
            || fin[m].modified_combining_class == new_cc) by {
            if s + bl <= m < jj {
                assert(fin[m].modified_combining_class
                    == orig.info@[m - bl].modified_combining_class);
            }
        }

        // Sortedness, under the premises.
        if spec_ccc_sorted(orig.info@, s, e) && (forall|k: int|
            s <= k < e ==> (#[trigger] orig.info@[k]).modified_combining_class > 26) {
            assert forall|k1: int, k2: int| s <= k1 < k2 < e implies (#[trigger] fin[k1]).modified_combining_class
                <= (#[trigger] fin[k2]).modified_combining_class by {
                if k1 < s + bl {
                    assert(fin[k1].modified_combining_class == new_cc);
                    if k2 < s + bl {
                        assert(fin[k2].modified_combining_class == new_cc);
                    } else if k2 < jj {
                        assert(fin[k2].modified_combining_class == orig.info@[k2
                            - bl].modified_combining_class);
                        assert(orig.info@[k2 - bl].modified_combining_class > 26);
                    } else {
                        assert(fin[k2].modified_combining_class
                            == orig.info@[k2].modified_combining_class);
                    }
                } else if k1 < jj {
                    assert(fin[k1].modified_combining_class == orig.info@[k1
                        - bl].modified_combining_class);
                    if k2 < jj {
                        assert(fin[k2].modified_combining_class == orig.info@[k2
                            - bl].modified_combining_class);
                    } else {
                        assert(fin[k2].modified_combining_class
                            == orig.info@[k2].modified_combining_class);
                        assert(k1 - bl < k2);
                    }
                } else {
                    assert(fin[k1].modified_combining_class
                        == orig.info@[k1].modified_combining_class);
                    assert(fin[k2].modified_combining_class
                        == orig.info@[k2].modified_combining_class);
                }
            }
            assert forall|m: int| s + bl <= m < e implies (#[trigger] fin[m]).modified_combining_class
                > 26 by {
                if m < jj {
                    assert(fin[m].modified_combining_class
                        == orig.info@[m - bl].modified_combining_class);
                }
            }
        }
    }

    (new_start, j)
}

/// Reorder the TR53 modifier combining marks within `[start, end)`: for
/// each target class 220 then 230, the leading group of modifier marks of
/// that class rotates to the front of the pending range and is renumbered
/// to 22 or 26, with merged clusters; the result is exactly the two pass
/// functions composed. The range's codepoints are a rearrangement of what
/// they were, nothing outside the range changes, a range with no class-220
/// or class-230 modifier marks is left untouched, and a range that was
/// sorted with every class above 26 stays sorted.
#[verifier::rlimit(100)]
pub fn reorder_marks(start: usize, end: usize, buffer: &mut Buffer)
    requires
        start <= end <= old(buffer).info@.len(),
    ensures
        final(buffer).info@ == ({
            let p1 = spec_pass_result(
                old(buffer).info@,
                start as int,
                start as int,
                end as int,
                220,
                CCC22,
            );
            spec_pass_result(p1.0, p1.1, p1.2, end as int, 230, CCC26).0
        }),
        final(buffer).info@.len() == old(buffer).info@.len(),
        forall|k: int|
            0 <= k < old(buffer).info@.len() && !(start <= k < end) ==> #[trigger] final(buffer).info@[k] == old(buffer).info@[k],
        final(buffer).pos == old(buffer).pos,
        final(buffer).context_before == old(buffer).context_before,
        final(buffer).context_after == old(buffer).context_after,
        final(buffer).scratch_flags == old(buffer).scratch_flags,
        final(buffer).unsafe_ranges == old(buffer).unsafe_ranges,
        spec_codepoints(final(buffer).info@.subrange(start as int, end as int)).to_multiset()
            == spec_codepoints(old(buffer).info@.subrange(start as int, end as int)).to_multiset(),
        (forall|k: int|
            start <= k < end ==> !spec_is_group_mark(#[trigger] old(buffer).info@[k], 220)
                && !spec_is_group_mark(old(buffer).info@[k], 230)) ==> *final(buffer) == *old(buffer),
        (spec_ccc_sorted(old(buffer).info@, start as int, end as int) && (forall|k: int|
            start <= k < end ==> (#[trigger] old(buffer).info@[k]).modified_combining_class > 26))
            ==> spec_ccc_sorted(final(buffer).info@, start as int, end as int),
{
    let ghost orig = *old(buffer);
    let (start1, i1) = reorder_pass(buffer, start, start, end, 220, CCC22);
    let ghost mid = *buffer;
    let (start2, i2) = reorder_pass(buffer, start1, i1, end, 230, CCC26);

    proof {
        let p1 = spec_pass_result(orig.info@, start as int, start as int, end as int, 220, CCC22);
        assert(mid.info@ == p1.0 && start1 as int == p1.1 && i1 as int == p1.2);
        assert(buffer.info@ == spec_pass_result(p1.0, p1.1, p1.2, end as int, 230, CCC26).0);
    }
    proof {
        let s = start as int;
        let e = end as int;
        let s1 = start1 as int;
        let fin = buffer.info@;

        // Codepoint multiset: the second pass touched only [start1, end).
        assert(fin.subrange(s, s1) =~= mid.info@.subrange(s, s1));
        assert(spec_codepoints(fin.subrange(s, e)) =~= spec_codepoints(fin.subrange(s, s1))
            + spec_codepoints(fin.subrange(s1, e)));
        assert(spec_codepoints(mid.info@.subrange(s, e)) =~= spec_codepoints(
            mid.info@.subrange(s, s1),
        ) + spec_codepoints(mid.info@.subrange(s1, e)));
        lemma_multiset_commutative(
            spec_codepoints(fin.subrange(s, s1)),
            spec_codepoints(fin.subrange(s1, e)),
        );
        lemma_multiset_commutative(
            spec_codepoints(mid.info@.subrange(s, s1)),
            spec_codepoints(mid.info@.subrange(s1, e)),
        );

        // An untouched first pass leaves the second pass nothing to do.
        if forall|k: int|
            start <= k < end ==> !spec_is_group_mark(#[trigger] orig.info@[k], 220)
                && !spec_is_group_mark(orig.info@[k], 230) {
            assert(forall|k: int|
                start <= k < end ==> !spec_is_group_mark(#[trigger] orig.info@[k], 220));
            assert(mid == orig);
            assert(forall|k: int|
                i1 <= k < end ==> !spec_is_group_mark(#[trigger] mid.info@[k], 230));
            assert(*buffer == orig);
        }

        // Sortedness under the premises.
        if spec_ccc_sorted(orig.info@, s, e) && (forall|k: int|
            s <= k < e ==> (#[trigger] orig.info@[k]).modified_combining_class > 26) {
            assert(spec_ccc_sorted(mid.info@, s, e));
            assert(spec_ccc_sorted(mid.info@, s1, e));
            assert(forall|k: int|
                s1 <= k < e ==> (#[trigger] mid.info@[k]).modified_combining_class > 26);
            assert(spec_ccc_sorted(fin, s1, e));
            assert forall|k1: int, k2: int| s <= k1 < k2 < e implies (#[trigger] fin[k1]).modified_combining_class
                <= (#[trigger] fin[k2]).modified_combining_class by {
                if k1 < s1 {
                    assert(fin[k1] == mid.info@[k1]);
                    assert(fin[k1].modified_combining_class == 22);
                    if k2 < s1 {
                        assert(fin[k2] == mid.info@[k2]);
                        assert(fin[k2].modified_combining_class == 22);
                    } else {
                        if k2 < i2 as int {
                            assert(fin[k2].modified_combining_class < 230
                                || fin[k2].modified_combining_class == 26);
                        }
                        assert(fin[k2].modified_combining_class >= 26 || (
                        fin[k2].modified_combining_class > 26));
                        if k2 >= start2 as int {
                            assert(fin[k2].modified_combining_class > 26);
                        } else {
                            assert(fin[k2].modified_combining_class == 26);
                        }
                    }
                }
            }
        }
    }
}

} // verus!
