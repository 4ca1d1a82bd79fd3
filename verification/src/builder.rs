//! The subset builder: turns one planned chunk into a standalone subset
//! artifact — glyph closure, subset extraction, serialization.

use vstd::prelude::*;
use crate::classify::Area;
use crate::errors::SubsetError;
use crate::font::{FontModel, FontS, font_wf, ser_font};
use crate::model::PlanGroup;
use crate::subset::{closed_set, glyph_closure, glyph_for, serialize_subset, spec_subset};

verus! {

/// One output of the pipeline: a standalone font binary covering the
/// chunk's characters, with its position and area tag.
#[derive(Debug)]
pub struct SubsetArtifact {
    pub index: usize,
    pub area: Area,
    pub chars: Vec<crate::model::CharInfo>,
    pub bytes: Vec<u8>,
}

/// The character map assigns glyph `g` to codepoint `cp`.
pub open spec fn cmap_maps(f: FontS, cp: u32, g: u16) -> bool {
    exists|q: int| 0 <= q < f.cmap.len() && (#[trigger] f.cmap[q]).cp == cp && f.cmap[q].gid == g
}

/// The codepoint resolves to some glyph of the font.
pub open spec fn resolves(f: FontS, cp: u32) -> bool {
    exists|q: int| 0 <= q < f.cmap.len() && (#[trigger] f.cmap[q]).cp == cp
}

/// `ks` is the glyph closure of `roots`: strictly ascending, in range,
/// containing the roots, closed under composite references, and least
/// among all such sets.
pub open spec fn closure_chars(f: FontS, roots: Seq<u16>, ks: Seq<u16>) -> bool {
    &&& forall|i: int, j: int| 0 <= i < j < ks.len() ==> ks[i] < ks[j]
    &&& forall|i: int| 0 <= i < ks.len() ==> (#[trigger] ks[i]) < f.glyphs.len()
    &&& forall|i: int| 0 <= i < roots.len() ==> ks.contains(#[trigger] roots[i])
    &&& forall|i: int, j: int|
        0 <= i < ks.len() && 0 <= j < f.glyphs[ks[i] as int].refs.len() ==> ks.contains(
            #[trigger] f.glyphs[ks[i] as int].refs[j],
        )
    &&& forall|s: Set<u16>|
        ((forall|i: int| 0 <= i < roots.len() ==> s.contains(#[trigger] roots[i]))
            && closed_set(f, s)) ==> forall|i: int| 0 <= i < ks.len() ==> s.contains(
            #[trigger] ks[i],
        )
}

/// Builds one subset artifact from one planned chunk. Succeeds exactly
/// when every character of the chunk resolves to a glyph; the emitted
/// bytes are the canonical binary of the sub-font of the chunk's glyph
/// closure.
pub fn build_subset(f: &FontModel, group: &PlanGroup, index: usize, minify: bool) -> (r: Result<
    SubsetArtifact,
    SubsetError,
>)
    requires
        font_wf(f@),
    ensures
        match r {
            Ok(a) => {
                &&& a.index == index
                &&& a.area == group.area
                &&& a.chars@ == group.chars@
                &&& forall|i: int|
                    0 <= i < group.chars@.len() ==> resolves(f@, (#[trigger] group.chars@[i]).cp)
                &&& exists|roots: Seq<u16>, ks: Seq<u16>|
                    {
                        &&& roots.len() == group.chars@.len()
                        &&& (forall|i: int|
                            0 <= i < roots.len() ==> cmap_maps(
                                f@,
                                group.chars@[i].cp,
                                #[trigger] roots[i],
                            ))
                        &&& closure_chars(f@, roots, ks)
                        &&& a.bytes@ == ser_font(spec_subset(f@, ks, minify))
                        &&& font_wf(spec_subset(f@, ks, minify))
                    }
            },
            Err(e) => {
                &&& e == SubsetError::SerializationError
                &&& exists|i: int|
                    0 <= i < group.chars@.len() && !resolves(
                        f@,
                        (#[trigger] group.chars@[i]).cp,
                    )
            },
        },
{
    let mut roots: Vec<u16> = Vec::new();
    let mut i: usize = 0;
    while i < group.chars.len()
        invariant
            i <= group.chars@.len(),
            font_wf(f@),
            roots@.len() == i,
            forall|q: int|
                0 <= q < i ==> cmap_maps(f@, group.chars@[q].cp, #[trigger] roots@[q]),
            forall|q: int| 0 <= q < i ==> resolves(f@, (#[trigger] group.chars@[q]).cp),
            forall|q: int| 0 <= q < i ==> (#[trigger] roots@[q]) < f@.glyphs.len(),
        decreases group.chars@.len() - i,
    {
        match glyph_for(f, group.chars[i].cp) {
            Some(g) => {
                roots.push(g);
            },
            None => {
                return Err(SubsetError::SerializationError);
            },
        }
        i = i + 1;
    }
    let ks = glyph_closure(f, &roots);
    let bytes = serialize_subset(f, &ks, minify);
    let mut chars: Vec<crate::model::CharInfo> = Vec::new();
    let mut q: usize = 0;
    while q < group.chars.len()
        invariant
            q <= group.chars@.len(),
            chars@ == group.chars@.take(q as int),
        decreases group.chars@.len() - q,
    {
        chars.push(group.chars[q]);
        proof {
            assert(chars@ =~= group.chars@.take(q + 1));
        }
        q = q + 1;
    }
    proof {
        assert(group.chars@.take(group.chars@.len() as int) =~= group.chars@);
        assert(closure_chars(f@, roots@, ks@));
    }
    Ok(SubsetArtifact { index, area: group.area, chars, bytes: bytes })
}

/// Two closures of the same roots are one list.
proof fn lemma_closure_unique(f: FontS, roots: Seq<u16>, k1: Seq<u16>, k2: Seq<u16>)
    requires
        closure_chars(f, roots, k1),
        closure_chars(f, roots, k2),
    ensures
        k1 =~= k2,
{
    let s1 = Set::new(|g: u16| k1.contains(g));
    let s2 = Set::new(|g: u16| k2.contains(g));
    assert(closed_set(f, s1)) by {
        assert forall|g: u16, r: int|
            s1.contains(g) && g < f.glyphs.len() && 0 <= r
                < f.glyphs[g as int].refs.len() implies s1.contains(
            #[trigger] f.glyphs[g as int].refs[r],
        ) by {
            let i = choose|i: int| 0 <= i < k1.len() && k1[i] == g;
            assert(k1.contains(f.glyphs[k1[i] as int].refs[r]));
        }
    }
    assert(closed_set(f, s2)) by {
        assert forall|g: u16, r: int|
            s2.contains(g) && g < f.glyphs.len() && 0 <= r
                < f.glyphs[g as int].refs.len() implies s2.contains(
            #[trigger] f.glyphs[g as int].refs[r],
        ) by {
            let i = choose|i: int| 0 <= i < k2.len() && k2[i] == g;
            assert(k2.contains(f.glyphs[k2[i] as int].refs[r]));
        }
    }
    assert forall|g: u16| k1.contains(g) implies k2.contains(g) by {
        let i = choose|i: int| 0 <= i < k1.len() && k1[i] == g;
        assert(s2.contains(k1[i]));
    }
    assert forall|g: u16| k2.contains(g) implies k1.contains(g) by {
        let i = choose|i: int| 0 <= i < k2.len() && k2[i] == g;
        assert(s1.contains(k2[i]));
    }
    crate::subset::lemma_sorted_unique_u16(k1, k2);
}

/// Determinism law: building the same chunk against the same font twice
/// yields byte-identical artifacts. Any two root lists that resolve the
/// same characters, and any two closures of them, serialize to the same
/// bytes.
pub proof fn lemma_build_deterministic(
    f: FontS,
    cps: Seq<u32>,
    r1: Seq<u16>,
    k1: Seq<u16>,
    r2: Seq<u16>,
    k2: Seq<u16>,
    minify: bool,
)
    requires
        font_wf(f),
        r1.len() == cps.len(),
        r2.len() == cps.len(),
        forall|i: int| 0 <= i < cps.len() ==> cmap_maps(f, cps[i], #[trigger] r1[i]),
        forall|i: int| 0 <= i < cps.len() ==> cmap_maps(f, cps[i], #[trigger] r2[i]),
        closure_chars(f, r1, k1),
        closure_chars(f, r2, k2),
    ensures
        ser_font(spec_subset(f, k1, minify)) == ser_font(spec_subset(f, k2, minify)),
{
    assert forall|i: int| 0 <= i < cps.len() implies r1[i] == r2[i] by {
        let q1 = choose|q: int|
            0 <= q < f.cmap.len() && (#[trigger] f.cmap[q]).cp == cps[i] && f.cmap[q].gid
                == r1[i];
        let q2 = choose|q: int|
            0 <= q < f.cmap.len() && (#[trigger] f.cmap[q]).cp == cps[i] && f.cmap[q].gid
                == r2[i];
        if q1 < q2 {
            assert(f.cmap[q1].cp < f.cmap[q2].cp);
        }
        if q2 < q1 {
            assert(f.cmap[q2].cp < f.cmap[q1].cp);
        }
    }
    assert(r1 =~= r2);
    lemma_closure_unique(f, r1, k1, k2);
    assert(k1 == k2);
}

} // verus!
