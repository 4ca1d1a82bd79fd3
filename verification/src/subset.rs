//! Glyph closure and subset extraction: computes the transitive set of
//! glyphs a character group needs, and rewrites the font to a standalone
//! binary holding exactly those glyphs, renumbered densely.

use vstd::prelude::*;
use crate::errors::SubsetError;
use crate::font::{
    CmapEntry, Glyph, FontModel, GlyphS, FontS, font_wf, ser_font, serialize,
};

verus! {

/// The glyph the character map assigns to a codepoint, if any.
pub fn glyph_for(f: &FontModel, cp: u32) -> (r: Option<u16>)
    ensures
        match r {
            Some(g) => exists|i: int|
                0 <= i < f@.cmap.len() && (#[trigger] f@.cmap[i]).cp == cp && f@.cmap[i].gid
                    == g,
            None => forall|i: int| 0 <= i < f@.cmap.len() ==> (#[trigger] f@.cmap[i]).cp != cp,
        },
{
    let mut i: usize = 0;
    while i < f.cmap.len()
        invariant
            i <= f@.cmap.len(),
            f@.cmap == f.cmap@,
            forall|q: int| 0 <= q < i ==> (#[trigger] f@.cmap[q]).cp != cp,
        decreases f@.cmap.len() - i,
    {
        if f.cmap[i].cp == cp {
            return Some(f.cmap[i].gid);
        }
        i = i + 1;
    }
    None
}

/// A glyph set closed under composite references.
pub open spec fn closed_set(f: FontS, s: Set<u16>) -> bool {
    forall|g: u16, r: int|
        s.contains(g) && g < f.glyphs.len() && 0 <= r < f.glyphs[g as int].refs.len()
            ==> s.contains(#[trigger] f.glyphs[g as int].refs[r])
}

/// Number of unset marks, the measure of the closure iteration.
pub open spec fn count_false(s: Seq<bool>) -> int
    decreases s.len(),
{
    if s.len() == 0 {
        0
    } else {
        count_false(s.drop_last()) + if s.last() {
            0int
        } else {
            1int
        }
    }
}

proof fn lemma_count_false_update(s: Seq<bool>, i: int)
    requires
        0 <= i < s.len(),
        !s[i],
    ensures
        count_false(s.update(i, true)) == count_false(s) - 1,
    decreases s.len(),
{
    if i == s.len() - 1 {
        assert(s.update(i, true).drop_last() =~= s.drop_last());
    } else {
        lemma_count_false_update(s.drop_last(), i);
        assert(s.update(i, true).drop_last() =~= s.drop_last().update(i, true));
        assert(s.update(i, true).last() == s.last());
    }
}

proof fn lemma_count_false_nonneg(s: Seq<bool>)
    ensures
        0 <= count_false(s) <= s.len(),
    decreases s.len(),
{
    if s.len() > 0 {
        lemma_count_false_nonneg(s.drop_last());
    }
}

/// The glyph closure of a set of root glyphs: the least set of glyph ids
/// containing the roots and closed under composite references, returned
/// as a strictly ascending list.
#[verifier::rlimit(100)]
#[verifier::spinoff_prover]
pub fn glyph_closure(f: &FontModel, roots: &Vec<u16>) -> (r: Vec<u16>)
    requires
        font_wf(f@),
        forall|i: int| 0 <= i < roots@.len() ==> (#[trigger] roots@[i]) < f@.glyphs.len(),
    ensures
        forall|i: int, j: int| 0 <= i < j < r@.len() ==> r@[i] < r@[j],
        forall|i: int| 0 <= i < r@.len() ==> (#[trigger] r@[i]) < f@.glyphs.len(),
        forall|i: int| 0 <= i < roots@.len() ==> r@.contains(#[trigger] roots@[i]),
        forall|i: int, j: int|
            0 <= i < r@.len() && 0 <= j < f@.glyphs[r@[i] as int].refs.len() ==> r@.contains(
                #[trigger] f@.glyphs[r@[i] as int].refs[j],
            ),
        forall|s: Set<u16>|
            ((forall|i: int| 0 <= i < roots@.len() ==> s.contains(#[trigger] roots@[i]))
                && closed_set(f@, s)) ==> forall|i: int|
                0 <= i < r@.len() ==> s.contains(#[trigger] r@[i]),
{
    let gn = f.glyphs.len();
    let mut marks: Vec<bool> = Vec::new();
    let mut z: usize = 0;
    while z < gn
        invariant
            z <= gn,
            marks@.len() == z,
            forall|x: int| 0 <= x < z ==> !(#[trigger] marks@[x]),
        decreases gn - z,
    {
        marks.push(false);
        z = z + 1;
    }
    let mut ri: usize = 0;
    while ri < roots.len()
        invariant
            ri <= roots@.len(),
            marks@.len() == gn,
            gn == f@.glyphs.len(),
            forall|i: int| 0 <= i < roots@.len() ==> (#[trigger] roots@[i]) < gn,
            forall|i: int| 0 <= i < ri ==> marks@[(#[trigger] roots@[i]) as int],
            forall|s: Set<u16>|
                ((forall|i: int| 0 <= i < roots@.len() ==> s.contains(#[trigger] roots@[i]))
                    && closed_set(f@, s)) ==> forall|x: int|
                    0 <= x < gn && (#[trigger] marks@[x]) ==> s.contains(x as u16),
        decreases roots@.len() - ri,
    {
        let g = roots[ri];
        marks[g as usize] = true;
        ri = ri + 1;
    }
    // saturate: mark every glyph referenced by a marked glyph until
    // nothing changes
    let mut changed = true;
    while changed
        invariant
            marks@.len() == gn,
            gn == f@.glyphs.len(),
            font_wf(f@),
            forall|i: int| 0 <= i < roots@.len() ==> (#[trigger] roots@[i]) < gn,
            forall|i: int| 0 <= i < roots@.len() ==> marks@[(#[trigger] roots@[i]) as int],
            forall|s: Set<u16>|
                ((forall|i: int| 0 <= i < roots@.len() ==> s.contains(#[trigger] roots@[i]))
                    && closed_set(f@, s)) ==> forall|x: int|
                    0 <= x < gn && (#[trigger] marks@[x]) ==> s.contains(x as u16),
            !changed ==> forall|x: int, j: int|
                0 <= x < gn && (#[trigger] marks@[x]) && 0 <= j
                    < f@.glyphs[x].refs.len() ==> marks@[(#[trigger] f@.glyphs[x].refs[j]) as int],
        decreases count_false(marks@) + if changed {
            1int
        } else {
            0int
        },
    {
        let ghost head = marks@;
        proof {
            lemma_count_false_nonneg(head);
        }
        changed = false;
        let mut g: usize = 0;
        while g < gn
            invariant
                g <= gn,
                marks@.len() == gn,
                gn == f@.glyphs.len(),
                font_wf(f@),
                head.len() == gn,
                forall|x: int| 0 <= x < gn && (#[trigger] head[x]) ==> marks@[x],
                changed ==> count_false(marks@) < count_false(head),
                !changed ==> marks@ == head,
                forall|i: int| 0 <= i < roots@.len() ==> (#[trigger] roots@[i]) < gn,
                forall|i: int| 0 <= i < roots@.len() ==> marks@[(#[trigger] roots@[i]) as int],
                forall|s: Set<u16>|
                    ((forall|i: int|
                        0 <= i < roots@.len() ==> s.contains(#[trigger] roots@[i]))
                        && closed_set(f@, s)) ==> forall|x: int|
                        0 <= x < gn && (#[trigger] marks@[x]) ==> s.contains(x as u16),
                !changed ==> forall|x: int, j: int|
                    0 <= x < g && (#[trigger] head[x]) && 0 <= j < f@.glyphs[x].refs.len()
                        ==> marks@[(#[trigger] f@.glyphs[x].refs[j]) as int],
            decreases gn - g,
        {
            if marks[g] {
                let gl = &f.glyphs[g];
                proof {
                    assert(f@.glyphs[g as int] == gl@);
                }
                let mut j: usize = 0;
                while j < gl.refs.len()
                    invariant
                        j <= gl.refs@.len(),
                        g < gn,
                        marks@.len() == gn,
                        gn == f@.glyphs.len(),
                        font_wf(f@),
                        head.len() == gn,
                        gl@ == f@.glyphs[g as int],
                        marks@[g as int],
                        forall|x: int| 0 <= x < gn && (#[trigger] head[x]) ==> marks@[x],
                        changed ==> count_false(marks@) < count_false(head),
                        !changed ==> marks@ == head,
                        forall|i: int|
                            0 <= i < roots@.len() ==> marks@[(#[trigger] roots@[i]) as int],
                        forall|i: int| 0 <= i < roots@.len() ==> (#[trigger] roots@[i]) < gn,
                        forall|s: Set<u16>|
                            ((forall|i: int|
                                0 <= i < roots@.len() ==> s.contains(#[trigger] roots@[i]))
                                && closed_set(f@, s)) ==> forall|x: int|
                                0 <= x < gn && (#[trigger] marks@[x]) ==> s.contains(x as u16),
                        !changed ==> forall|x: int, jj: int|
                            0 <= x < g && (#[trigger] head[x]) && 0 <= jj
                                < f@.glyphs[x].refs.len() ==> marks@[(
                            #[trigger] f@.glyphs[x].refs[jj]) as int],
                        !changed ==> forall|jj: int|
                            0 <= jj < j ==> marks@[(#[trigger] gl.refs@[jj]) as int],
                    decreases gl.refs@.len() - j,
                {
                    let rv = gl.refs[j];
                    proof {
                        assert(f@.glyphs[g as int].refs[j as int] == rv);
                        assert(rv < gn);
                    }
                    if !marks[rv as usize] {
                        let ghost before = marks@;
                        marks[rv as usize] = true;
                        proof {
                            lemma_count_false_update(before, rv as int);
                            lemma_count_false_nonneg(before);
                            if !changed {
                                assert(before == head);
                            }
                            assert forall|s: Set<u16>|
                                ((forall|i: int|
                                    0 <= i < roots@.len() ==> s.contains(
                                        #[trigger] roots@[i],
                                    )) && closed_set(f@, s)) implies forall|x: int|
                                0 <= x < gn && (#[trigger] marks@[x]) ==> s.contains(
                                    x as u16,
                                ) by {
                                assert forall|x: int|
                                    0 <= x < gn && (#[trigger] marks@[x]) implies s.contains(
                                    x as u16,
                                ) by {
                                    if x == rv as int {
                                        assert(s.contains(g as u16));
                                        assert(s.contains(f@.glyphs[g as int].refs[j as int]));
                                    } else {
                                        assert(before[x]);
                                    }
                                }
                            }
                        }
                        changed = true;
                    }
                    j = j + 1;
                }
            }
            g = g + 1;
        }
        proof {
            lemma_count_false_nonneg(marks@);
        }
    }
    // collect the marked glyphs in ascending order
    let mut out: Vec<u16> = Vec::new();
    let mut gid: usize = 0;
    while gid < gn
        invariant
            gid <= gn,
            gn == f@.glyphs.len(),
            gn <= 0xFFFF,
            marks@.len() == gn,
            forall|i: int, j: int| 0 <= i < j < out@.len() ==> out@[i] < out@[j],
            forall|i: int| 0 <= i < out@.len() ==> (#[trigger] out@[i]) < gid,
            forall|i: int| 0 <= i < out@.len() ==> marks@[(#[trigger] out@[i]) as int],
            forall|x: int| 0 <= x < gid && (#[trigger] marks@[x]) ==> out@.contains(x as u16),
        decreases gn - gid,
    {
        if marks[gid] {
            let ghost outp = out@;
            out.push(gid as u16);
            proof {
                assert forall|x: int|
                    0 <= x < gid + 1 && (#[trigger] marks@[x]) implies out@.contains(
                    x as u16,
                ) by {
                    if x == gid {
                        assert(out@[out@.len() - 1] == x as u16);
                    } else {
                        let q = choose|q: int| 0 <= q < outp.len() && outp[q] == x as u16;
                        assert(out@[q] == x as u16);
                    }
                }
            }
        }
        gid = gid + 1;
    }
    proof {
        assert forall|i: int| 0 <= i < roots@.len() implies out@.contains(
            #[trigger] roots@[i],
        ) by {
            assert(marks@[roots@[i] as int]);
        }
        assert forall|i: int, j: int|
            0 <= i < out@.len() && 0 <= j < f@.glyphs[out@[i] as int].refs.len() implies
            out@.contains(#[trigger] f@.glyphs[out@[i] as int].refs[j]) by {
            assert(marks@[out@[i] as int]);
            assert(marks@[f@.glyphs[out@[i] as int].refs[j] as int]);
        }
    }
    out
}

/// The position of glyph `g` in the kept list.
pub open spec fn index_in(keep: Seq<u16>, g: u16) -> int {
    choose|i: int| 0 <= i < keep.len() && keep[i] == g
}

/// The character map restricted to kept glyphs, with glyph ids renumbered
/// to positions in the kept list.
pub open spec fn sub_cmap(cmap: Seq<CmapEntry>, keep: Seq<u16>) -> Seq<CmapEntry>
    decreases cmap.len(),
{
    if cmap.len() == 0 {
        Seq::empty()
    } else {
        sub_cmap(cmap.drop_last(), keep) + if keep.contains(cmap.last().gid) {
            seq![CmapEntry { cp: cmap.last().cp, gid: index_in(keep, cmap.last().gid) as u16 }]
        } else {
            Seq::<CmapEntry>::empty()
        }
    }
}

/// The font restricted to the kept glyphs: the character map filtered and
/// renumbered, the glyph table reindexed with references renumbered, and
/// the metadata dropped when minifying.
pub open spec fn spec_subset(f: FontS, keep: Seq<u16>, minify: bool) -> FontS {
    FontS {
        cmap: sub_cmap(f.cmap, keep),
        glyphs: Seq::new(
            keep.len(),
            |ni: int|
                GlyphS {
                    refs: f.glyphs[keep[ni] as int].refs.map_values(
                        |r: u16| index_in(keep, r) as u16,
                    ),
                    data: f.glyphs[keep[ni] as int].data,
                },
        ),
        meta: if minify {
            Seq::empty()
        } else {
            f.meta
        },
    }
}


proof fn lemma_sorted_ge_index(keep: Seq<u16>, i: int)
    requires
        forall|x: int, y: int| 0 <= x < y < keep.len() ==> keep[x] < keep[y],
        0 <= i < keep.len(),
    ensures
        keep[i] >= i,
    decreases i,
{
    if i > 0 {
        lemma_sorted_ge_index(keep, i - 1);
    }
}

proof fn lemma_index_in_self(keep: Seq<u16>, j: int)
    requires
        forall|x: int, y: int| 0 <= x < y < keep.len() ==> keep[x] < keep[y],
        0 <= j < keep.len(),
    ensures
        index_in(keep, keep[j]) == j,
{
    assert(keep.contains(keep[j])) by {
        assert(keep[j] == keep[j]);
    }
    let i = index_in(keep, keep[j]);
    assert(0 <= i < keep.len() && keep[i] == keep[j]);
    if i < j {
        assert(keep[i] < keep[j]);
    }
    if i > j {
        assert(keep[j] < keep[i]);
    }
}

/// Extracts the sub-font of the kept glyphs. The kept list must be
/// strictly ascending, in range, and closed under composite references;
/// the result is exactly the renumbered restriction, and well-formed.
#[verifier::rlimit(100)]
#[verifier::spinoff_prover]
pub fn subset_font(f: &FontModel, keep: &Vec<u16>, minify: bool) -> (r: FontModel)
    requires
        font_wf(f@),
        forall|i: int, j: int| 0 <= i < j < keep@.len() ==> keep@[i] < keep@[j],
        forall|i: int| 0 <= i < keep@.len() ==> (#[trigger] keep@[i]) < f@.glyphs.len(),
        forall|i: int, rr: int|
            0 <= i < keep@.len() && 0 <= rr < f@.glyphs[keep@[i] as int].refs.len()
                ==> keep@.contains(#[trigger] f@.glyphs[keep@[i] as int].refs[rr]),
    ensures
        r@ == spec_subset(f@, keep@, minify),
        font_wf(r@),
        r@.glyphs.len() == keep@.len(),
{
    let gn = f.glyphs.len();
    let kn = keep.len();
    proof {
        if kn > 0 {
            lemma_sorted_ge_index(keep@, kn - 1);
        }
    }
    let mut kept: Vec<bool> = Vec::new();
    let mut newidx: Vec<u16> = Vec::new();
    let mut z: usize = 0;
    while z < gn
        invariant
            z <= gn,
            kept@.len() == z,
            newidx@.len() == z,
            forall|x: int| 0 <= x < z ==> !(#[trigger] kept@[x]),
        decreases gn - z,
    {
        kept.push(false);
        newidx.push(0);
        z = z + 1;
    }
    let mut ni: usize = 0;
    while ni < kn
        invariant
            ni <= kn,
            kn == keep@.len(),
            kn <= gn,
            gn == f@.glyphs.len(),
            gn <= 0xFFFF,
            kept@.len() == gn,
            newidx@.len() == gn,
            forall|i: int, j: int| 0 <= i < j < keep@.len() ==> keep@[i] < keep@[j],
            forall|i: int| 0 <= i < keep@.len() ==> (#[trigger] keep@[i]) < gn,
            forall|x: int|
                0 <= x < gn ==> ((#[trigger] kept@[x]) <==> exists|j: int|
                    0 <= j < ni && keep@[j] == x as u16),
            forall|j: int|
                0 <= j < ni ==> newidx@[(#[trigger] keep@[j]) as int] == j as u16,
        decreases kn - ni,
    {
        let g = keep[ni] as usize;
        let ghost keptp = kept@;
        let ghost newidxp = newidx@;
        kept[g] = true;
        newidx[g] = ni as u16;
        proof {
            assert forall|j: int| 0 <= j < ni implies keep@[j] != keep@[ni as int] by {
                assert(keep@[j] < keep@[ni as int]);
            }
            assert forall|x: int|
                0 <= x < gn implies ((#[trigger] kept@[x]) <==> exists|j: int|
                    0 <= j < ni + 1 && keep@[j] == x as u16) by {
                if x == g {
                    assert(keep@[ni as int] == x as u16);
                } else {
                    assert(kept@[x] == keptp[x]);
                    assert forall|j: int|
                        0 <= j < ni + 1 && keep@[j] == x as u16 implies j < ni by {
                        if j == ni {
                            assert(x == g);
                        }
                    }
                }
            }
            assert forall|j: int|
                0 <= j < ni + 1 implies newidx@[(#[trigger] keep@[j]) as int] == j as u16 by {
                if j < ni {
                    assert(keep@[j] != keep@[ni as int]);
                    assert(newidx@[keep@[j] as int] == newidxp[keep@[j] as int]);
                } else {
                    assert(keep@[ni as int] as int == g);
                }
            }
        }
        ni = ni + 1;
    }
    // the character map, filtered and renumbered
    let mut cmap: Vec<CmapEntry> = Vec::new();
    let mut i: usize = 0;
    while i < f.cmap.len()
        invariant
            i <= f.cmap@.len(),
            f@.cmap == f.cmap@,
            font_wf(f@),
            kn == keep@.len(),
            kn <= gn,
            gn == f@.glyphs.len(),
            kept@.len() == gn,
            newidx@.len() == gn,
            forall|x: int, y: int| 0 <= x < y < keep@.len() ==> keep@[x] < keep@[y],
            forall|x: int| 0 <= x < keep@.len() ==> (#[trigger] keep@[x]) < gn,
            forall|x: int|
                0 <= x < gn ==> ((#[trigger] kept@[x]) <==> keep@.contains(x as u16)),
            forall|j: int| 0 <= j < kn ==> newidx@[(#[trigger] keep@[j]) as int] == j as u16,
            cmap@ == sub_cmap(f.cmap@.take(i as int), keep@),
            forall|q: int| 0 <= q < cmap@.len() ==> (#[trigger] cmap@[q]).gid < kn,
            forall|q1: int, q2: int|
                0 <= q1 < q2 < cmap@.len() ==> (#[trigger] cmap@[q1]).cp < (
                #[trigger] cmap@[q2]).cp,
            cmap@.len() > 0 ==> exists|i0: int|
                0 <= i0 < i && cmap@.last().cp == f.cmap@[i0].cp,
        decreases f.cmap@.len() - i,
    {
        let e = f.cmap[i];
        proof {
            assert(f.cmap@.take(i + 1).drop_last() =~= f.cmap@.take(i as int));
            assert(f.cmap@.take(i + 1).last() == f.cmap@[i as int]);
        }
        if kept[e.gid as usize] {
            let ng = newidx[e.gid as usize];
            let ghost cprev = cmap@;
            cmap.push(CmapEntry { cp: e.cp, gid: ng });
            proof {
                assert(keep@.contains(e.gid));
                let j0 = choose|j0: int| 0 <= j0 < keep@.len() && keep@[j0] == e.gid;
                assert(newidx@[e.gid as int] == j0 as u16);
                lemma_index_in_self(keep@, j0);
                assert(index_in(keep@, e.gid) == j0);
                assert(ng == index_in(keep@, e.gid) as u16);
                assert(ng < kn);
                assert(cmap@ =~= sub_cmap(f.cmap@.take(i + 1), keep@));
                if cprev.len() > 0 {
                    let i0 = choose|i0: int| 0 <= i0 < i && cprev.last().cp == f.cmap@[i0].cp;
                    assert(f.cmap@[i0].cp < f.cmap@[i as int].cp);
                }
                assert forall|q1: int, q2: int|
                    0 <= q1 < q2 < cmap@.len() implies (#[trigger] cmap@[q1]).cp < (
                #[trigger] cmap@[q2]).cp by {
                    if q2 == cmap@.len() - 1 && cprev.len() > 0 {
                        if q1 < cprev.len() - 1 {
                            assert(cprev[q1].cp < cprev[cprev.len() - 1].cp);
                        }
                    }
                }
            }
        } else {
            proof {
                assert(!keep@.contains(e.gid));
                assert(cmap@ =~= sub_cmap(f.cmap@.take(i + 1), keep@));
            }
        }
        i = i + 1;
    }
    proof {
        assert(f.cmap@.take(f.cmap@.len() as int) =~= f.cmap@);
    }
    // the glyph table, renumbered
    let mut glyphs: Vec<Glyph> = Vec::new();
    let mut ni: usize = 0;
    while ni < kn
        invariant
            ni <= kn,
            kn == keep@.len(),
            kn <= gn,
            gn == f@.glyphs.len(),
            font_wf(f@),
            kept@.len() == gn,
            newidx@.len() == gn,
            forall|x: int, y: int| 0 <= x < y < keep@.len() ==> keep@[x] < keep@[y],
            forall|x: int| 0 <= x < keep@.len() ==> (#[trigger] keep@[x]) < gn,
            forall|x: int, rr: int|
                0 <= x < keep@.len() && 0 <= rr < f@.glyphs[keep@[x] as int].refs.len()
                    ==> keep@.contains(#[trigger] f@.glyphs[keep@[x] as int].refs[rr]),
            forall|x: int|
                0 <= x < gn ==> ((#[trigger] kept@[x]) <==> keep@.contains(x as u16)),
            forall|j: int| 0 <= j < kn ==> newidx@[(#[trigger] keep@[j]) as int] == j as u16,
            glyphs@.len() == ni,
            forall|x: int|
                0 <= x < ni ==> (#[trigger] glyphs@[x])@.refs =~= f@.glyphs[keep@[x] as int].refs.map_values(
                    |r: u16| index_in(keep@, r) as u16,
                ) && glyphs@[x]@.data == f@.glyphs[keep@[x] as int].data,
            forall|x: int|
                0 <= x < ni ==> (#[trigger] glyphs@[x])@.refs.len() <= 0xFF
                    && glyphs@[x]@.data.len() <= 0xFFFF,
            forall|x: int, rr: int|
                0 <= x < ni && 0 <= rr < glyphs@[x]@.refs.len() ==> (
                #[trigger] glyphs@[x]@.refs[rr]) < kn,
        decreases kn - ni,
    {
        let old_gid = keep[ni] as usize;
        let gl = &f.glyphs[old_gid];
        proof {
            assert(f@.glyphs[old_gid as int] == gl@);
        }
        let mut refs: Vec<u16> = Vec::new();
        let mut j: usize = 0;
        while j < gl.refs.len()
            invariant
                j <= gl.refs@.len(),
                ni < kn,
                kn == keep@.len(),
                kn <= gn,
                gn == f@.glyphs.len(),
                old_gid == keep@[ni as int],
                gl@ == f@.glyphs[old_gid as int],
                kept@.len() == gn,
                newidx@.len() == gn,
                forall|x: int, y: int| 0 <= x < y < keep@.len() ==> keep@[x] < keep@[y],
                forall|x: int| 0 <= x < keep@.len() ==> (#[trigger] keep@[x]) < gn,
                forall|x: int, rr: int|
                    0 <= x < keep@.len() && 0 <= rr < f@.glyphs[keep@[x] as int].refs.len()
                        ==> keep@.contains(#[trigger] f@.glyphs[keep@[x] as int].refs[rr]),
                forall|x: int|
                    0 <= x < gn ==> ((#[trigger] kept@[x]) <==> keep@.contains(x as u16)),
                forall|q: int|
                    0 <= q < kn ==> newidx@[(#[trigger] keep@[q]) as int] == q as u16,
                refs@.len() == j,
                forall|q: int|
                    0 <= q < j ==> (#[trigger] refs@[q]) == index_in(keep@, gl.refs@[q]) as u16
                        && refs@[q] < kn,
            decreases gl.refs@.len() - j,
        {
            let rv = gl.refs[j];
            proof {
                assert(f@.glyphs[keep@[ni as int] as int].refs[j as int] == rv);
                assert(keep@.contains(rv));
                assert(rv < gn) by {
                    let w = choose|w: int| 0 <= w < keep@.len() && keep@[w] == rv;
                    assert(keep@[w] < gn);
                }
            }
            let nr = newidx[rv as usize];
            proof {
                let j0 = choose|j0: int| 0 <= j0 < keep@.len() && keep@[j0] == rv;
                assert(newidx@[rv as int] == j0 as u16);
                lemma_index_in_self(keep@, j0);
                assert(nr == index_in(keep@, rv) as u16);
                assert(nr < kn);
            }
            refs.push(nr);
            j = j + 1;
        }
        let mut data: Vec<u8> = Vec::new();
        let mut dk: usize = 0;
        while dk < gl.data.len()
            invariant
                dk <= gl.data@.len(),
                data@ == gl.data@.take(dk as int),
            decreases gl.data@.len() - dk,
        {
            data.push(gl.data[dk]);
            proof {
                assert(data@ =~= gl.data@.take(dk + 1));
            }
            dk = dk + 1;
        }
        proof {
            assert(gl.data@.take(gl.data@.len() as int) =~= gl.data@);
            assert(refs@ =~= gl.refs@.map_values(|r: u16| index_in(keep@, r) as u16));
        }
        glyphs.push(Glyph { refs, data });
        ni = ni + 1;
    }
    // metadata, dropped when minifying
    let mut meta: Vec<u8> = Vec::new();
    if !minify {
        let mut mk: usize = 0;
        while mk < f.meta.len()
            invariant
                mk <= f.meta@.len(),
                meta@ == f.meta@.take(mk as int),
            decreases f.meta@.len() - mk,
        {
            meta.push(f.meta[mk]);
            proof {
                assert(meta@ =~= f.meta@.take(mk + 1));
            }
            mk = mk + 1;
        }
        proof {
            assert(f.meta@.take(f.meta@.len() as int) =~= f.meta@);
        }
    }
    let r = FontModel { cmap, glyphs, meta };
    proof {
        let spec = spec_subset(f@, keep@, minify);
        assert(r@.glyphs =~~= spec.glyphs) by {
            assert(r@.glyphs.len() == kn);
            assert forall|x: int| 0 <= x < kn implies r@.glyphs[x] =~= spec.glyphs[x] by {
                assert(r@.glyphs[x] == glyphs@[x]@);
            }
        }
        assert(r@ =~~= spec);
        assert(r@.cmap.len() <= f@.cmap.len()) by {
            lemma_sub_cmap_len(f@.cmap, keep@);
        }
        assert(font_wf(r@));
    }
    r
}

proof fn lemma_sub_cmap_len(cmap: Seq<CmapEntry>, keep: Seq<u16>)
    ensures
        sub_cmap(cmap, keep).len() <= cmap.len(),
    decreases cmap.len(),
{
    if cmap.len() > 0 {
        lemma_sub_cmap_len(cmap.drop_last(), keep);
    }
}

/// Emits the standalone binary of the kept glyphs: the renumbered
/// restriction of the font, serialized canonically. The result parses
/// back to the sub-font, so it never references a glyph outside its own
/// glyph table.
pub fn serialize_subset(f: &FontModel, keep: &Vec<u16>, minify: bool) -> (out: Vec<u8>)
    requires
        font_wf(f@),
        forall|i: int, j: int| 0 <= i < j < keep@.len() ==> keep@[i] < keep@[j],
        forall|i: int| 0 <= i < keep@.len() ==> (#[trigger] keep@[i]) < f@.glyphs.len(),
        forall|i: int, rr: int|
            0 <= i < keep@.len() && 0 <= rr < f@.glyphs[keep@[i] as int].refs.len()
                ==> keep@.contains(#[trigger] f@.glyphs[keep@[i] as int].refs[rr]),
    ensures
        out@ == ser_font(spec_subset(f@, keep@, minify)),
        font_wf(spec_subset(f@, keep@, minify)),
{
    let sub = subset_font(f, keep, minify);
    serialize(&sub)
}

/// Two strictly ascending lists with the same members are one list.
pub proof fn lemma_sorted_unique_u16(k1: Seq<u16>, k2: Seq<u16>)
    requires
        forall|i: int, j: int| 0 <= i < j < k1.len() ==> k1[i] < k1[j],
        forall|i: int, j: int| 0 <= i < j < k2.len() ==> k2[i] < k2[j],
        forall|g: u16| k1.contains(g) <==> k2.contains(g),
    ensures
        k1 =~= k2,
    decreases k1.len(),
{
    if k1.len() == 0 {
        if k2.len() > 0 {
            assert(k2.contains(k2[0]));
            assert(k1.contains(k2[0]));
            assert(false);
        }
    } else if k2.len() == 0 {
        assert(k1.contains(k1[0]));
        assert(k2.contains(k1[0]));
        assert(false);
    } else {
        assert(k1.contains(k1[0]));
        assert(k2.contains(k2[0]));
        let i2 = choose|i2: int| 0 <= i2 < k2.len() && k2[i2] == k1[0];
        let i1 = choose|i1: int| 0 <= i1 < k1.len() && k1[i1] == k2[0];
        assert(k2[0] <= k2[i2]);
        assert(k1[0] <= k1[i1]);
        assert(k1[0] == k2[0]);
        let t1 = k1.drop_first();
        let t2 = k2.drop_first();
        assert forall|g: u16| t1.contains(g) implies t2.contains(g) by {
            let q = choose|q: int| 0 <= q < t1.len() && t1[q] == g;
            assert(k1[q + 1] == g);
            assert(k1[0] < g);
            assert(k1.contains(g));
            assert(k2.contains(g));
            let w = choose|w: int| 0 <= w < k2.len() && k2[w] == g;
            assert(w != 0);
            assert(t2[w - 1] == g);
        }
        assert forall|g: u16| t2.contains(g) implies t1.contains(g) by {
            let q = choose|q: int| 0 <= q < t2.len() && t2[q] == g;
            assert(k2[q + 1] == g);
            assert(k2[0] < g);
            assert(k2.contains(g));
            assert(k1.contains(g));
            let w = choose|w: int| 0 <= w < k1.len() && k1[w] == g;
            assert(w != 0);
            assert(t1[w - 1] == g);
        }
        assert forall|i: int, j: int| 0 <= i < j < t1.len() implies t1[i] < t1[j] by {
            assert(k1[i + 1] < k1[j + 1]);
        }
        assert forall|i: int, j: int| 0 <= i < j < t2.len() implies t2[i] < t2[j] by {
            assert(k2[i + 1] < k2[j + 1]);
        }
        lemma_sorted_unique_u16(t1, t2);
        assert forall|i: int| 0 <= i < k1.len() implies k1[i] == k2[i] by {
            if i > 0 {
                assert(t1[i - 1] == k1[i]);
                assert(t2[i - 1] == k2[i]);
            }
        }
        assert(k1 =~= k2);
    }
}

/// Determinism law: the subset binary is a function of the glyph set
/// alone. Two strictly ascending kept lists with the same members — as
/// two runs of the closure produce — give byte-identical output.
pub proof fn lemma_subset_deterministic(f: FontS, k1: Seq<u16>, k2: Seq<u16>, minify: bool)
    requires
        forall|i: int, j: int| 0 <= i < j < k1.len() ==> k1[i] < k1[j],
        forall|i: int, j: int| 0 <= i < j < k2.len() ==> k2[i] < k2[j],
        forall|g: u16| k1.contains(g) <==> k2.contains(g),
    ensures
        ser_font(spec_subset(f, k1, minify)) == ser_font(spec_subset(f, k2, minify)),
{
    lemma_sorted_unique_u16(k1, k2);
}

} // verus!
