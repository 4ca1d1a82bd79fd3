//! The orchestrator: parse, classify, plan, build, finalize, emitting one
//! progress event before and after each stage and one per built subset,
//! in plan order. Builds run sequentially in plan order; the plan and the
//! artifacts are the same whatever the configured worker count, so the
//! parallel build mode is carried in the configuration and honoured by
//! the caller's scheduling, not here.

use vstd::prelude::*;
use vstd::multiset::Multiset;
use crate::builder::{SubsetArtifact, build_subset, resolves};
use crate::classify::{Area, area_of, area_at_rank, classify, NUM_AREAS};
use crate::config::SubsetConfig;
use crate::errors::SubsetError;
use crate::font::{FontModel, FontS, font_wf, ser_font, ser_glyph, parse, encodes};
use crate::model::{
    CharInfo, AreaGroup, PlanGroup, filter_area, chunks_chars, groups_chars, classified,
    lemma_classified_permutation, lemma_filter_area_members, group_by_area,
};
use crate::plan::{plan, plan_fails};
use crate::subset::glyph_for;

verus! {

/// A milestone of the pipeline.
#[derive(Clone, Copy, PartialEq, Eq, Structural, Debug)]
pub enum EventTag {
    ClassifyStart,
    ClassifyEnd,
    PlanReady,
    SubsetBuilt,
    FinalizeDone,
    ErrorHalt,
}

/// One progress event: a milestone tag, and the error that ended the run
/// when the tag is `ErrorHalt`.
#[derive(Clone, Copy, PartialEq, Eq, Structural, Debug)]
pub struct ProgressEvent {
    pub tag: EventTag,
    pub detail: Option<SubsetError>,
}

/// The event stream of a successful run over `n` artifacts: classify
/// start and end, the plan, one event per subset in plan order, and the
/// finalize mark.
pub open spec fn ok_events(n: int, evs: Seq<ProgressEvent>) -> bool {
    &&& evs.len() == 4 + n
    &&& evs[0].tag == EventTag::ClassifyStart
    &&& evs[1].tag == EventTag::ClassifyEnd
    &&& evs[2].tag == EventTag::PlanReady
    &&& forall|i: int| 3 <= i < 3 + n ==> (#[trigger] evs[i]).tag == EventTag::SubsetBuilt
    &&& evs[3 + n].tag == EventTag::FinalizeDone
}

/// Does the configuration retain this codepoint?
pub open spec fn keep_cp(cfg: SubsetConfig, cp: u32) -> bool {
    &&& (match cfg.subsets {
        Some(ss) => ss@.contains(cp),
        None => true,
    })
    &&& (match cfg.language_areas {
        Some(la) => la@.contains(area_of(cp)),
        None => true,
    })
}

/// The retained repertoire: every mapped codepoint the configuration
/// keeps, in character-map order, with its size estimate — the length of
/// its glyph's serialized record, a monotonic byte-cost proxy.
pub open spec fn retained(fs: FontS, cfg: SubsetConfig) -> Seq<CharInfo>
    decreases fs.cmap.len(),
{
    if fs.cmap.len() == 0 {
        Seq::empty()
    } else {
        let prev = FontS { cmap: fs.cmap.drop_last(), glyphs: fs.glyphs, meta: fs.meta };
        retained(prev, cfg) + if keep_cp(cfg, fs.cmap.last().cp) {
            seq![
                CharInfo {
                    cp: fs.cmap.last().cp,
                    size: ser_glyph(fs.glyphs[fs.cmap.last().gid as int]).len() as u32,
                },
            ]
        } else {
            Seq::<CharInfo>::empty()
        }
    }
}

/// The repertoire split by membership in the guaranteed set: `keep` picks
/// the members or the rest.
pub open spec fn filter_remain(s: Seq<CharInfo>, rem: Seq<u32>, member: bool) -> Seq<CharInfo>
    decreases s.len(),
{
    if s.len() == 0 {
        Seq::empty()
    } else {
        filter_remain(s.drop_last(), rem, member) + if rem.contains(s.last().cp) == member {
            seq![s.last()]
        } else {
            Seq::<CharInfo>::empty()
        }
    }
}

/// All characters of an artifact sequence, concatenated.
pub open spec fn arts_chars(arts: Seq<SubsetArtifact>) -> Seq<CharInfo>
    decreases arts.len(),
{
    if arts.len() == 0 {
        Seq::empty()
    } else {
        arts_chars(arts.drop_last()) + arts.last().chars@
    }
}

/// Character `c` appears no later than the first artifact that holds any
/// character of `c`'s area: the artifact-level reading of the guaranteed
/// placement of remain characters.
pub open spec fn art_guaranteed_first(arts: Seq<SubsetArtifact>, c: CharInfo) -> bool {
    forall|j: int|
        0 <= j < arts.len() && crate::plan::has_area_char(
            (#[trigger] arts[j]).chars@,
            area_of(c.cp),
        ) ==> exists|k: int| 0 <= k <= j && (#[trigger] arts[k]).chars@.contains(c)
}

/// A requested character — an explicit `subsets` entry or a guaranteed
/// character — that resolves to no glyph of the font: such a request is
/// reported, never silently dropped.
pub open spec fn has_unresolved_request(fs: FontS, cfg: SubsetConfig) -> bool {
    ||| (match cfg.subsets {
        Some(ss) => exists|i: int| 0 <= i < ss@.len() && !resolves(fs, #[trigger] ss@[i]),
        None => false,
    })
    ||| (exists|i: int|
        0 <= i < cfg.subset_remain_chars@.len() && !resolves(
            fs,
            #[trigger] cfg.subset_remain_chars@[i],
        ))
}

/// Number of areas below rank `r` holding at least one character of the
/// two repertoire halves.
pub open spec fn nonempty_areas_upto(pa: Seq<CharInfo>, pb: Seq<CharInfo>, r: int) -> int
    decreases r,
{
    if r <= 0 {
        0
    } else {
        nonempty_areas_upto(pa, pb, r - 1) + if filter_area(pa, area_at_rank(r - 1)).len()
            + filter_area(pb, area_at_rank(r - 1)).len() > 0 {
            1int
        } else {
            0int
        }
    }
}

/// Exactly when the partitioner must give up on this font and
/// configuration: an oversized character in the retained repertoire, or a
/// chunk ceiling below the number of its non-empty areas (below one chunk
/// in auto-subset mode).
pub open spec fn split_plan_fails(fs: FontS, cfg: SubsetConfig) -> bool {
    let rep = retained(fs, cfg);
    let pa = filter_remain(rep, cfg.subset_remain_chars@, true);
    let pb = filter_remain(rep, cfg.subset_remain_chars@, false);
    ||| (exists|i: int|
        0 <= i < rep.len() && (#[trigger] rep[i]).size > cfg.chunk_size
            + cfg.chunk_size_tolerance)
    ||| (if cfg.auto_subset {
        rep.len() > 0 && cfg.max_allow_subsets_count == 0
    } else {
        nonempty_areas_upto(pa, pb, NUM_AREAS as int) > cfg.max_allow_subsets_count
    })
}

/// Every retained character is a character of the font's map.
proof fn lemma_retained_resolves(fs: FontS, cfg: SubsetConfig)
    ensures
        forall|i: int|
            0 <= i < retained(fs, cfg).len() ==> resolves(
                fs,
                (#[trigger] retained(fs, cfg)[i]).cp,
            ),
    decreases fs.cmap.len(),
{
    if fs.cmap.len() > 0 {
        let prev = FontS { cmap: fs.cmap.drop_last(), glyphs: fs.glyphs, meta: fs.meta };
        lemma_retained_resolves(prev, cfg);
        assert forall|i: int|
            0 <= i < retained(fs, cfg).len() implies resolves(
            fs,
            (#[trigger] retained(fs, cfg)[i]).cp,
        ) by {
            let rp = retained(prev, cfg);
            if i < rp.len() {
                assert(retained(fs, cfg)[i] == rp[i]);
                assert(resolves(prev, rp[i].cp));
                let q = choose|q: int|
                    0 <= q < prev.cmap.len() && (#[trigger] prev.cmap[q]).cp == rp[i].cp;
                assert(fs.cmap[q] == prev.cmap[q]);
                assert(resolves(fs, rp[i].cp));
            } else {
                assert(retained(fs, cfg)[i].cp == fs.cmap.last().cp);
                assert(fs.cmap[fs.cmap.len() - 1].cp == fs.cmap.last().cp);
            }
        }
    }
}

proof fn lemma_groups_chars_member(gs: Seq<AreaGroup>, a: int, q: int)
    requires
        0 <= a < gs.len(),
        0 <= q < gs[a].chars@.len(),
    ensures
        groups_chars(gs).contains(gs[a].chars@[q]),
    decreases gs.len(),
{
    if a == gs.len() - 1 {
        let m = groups_chars(gs.drop_last()).len();
        assert(groups_chars(gs)[m + q] == gs[a].chars@[q]);
    } else {
        lemma_groups_chars_member(gs.drop_last(), a, q);
        let c = gs[a].chars@[q];
        let k = choose|k: int|
            0 <= k < groups_chars(gs.drop_last()).len() && groups_chars(gs.drop_last())[k] == c;
        assert(groups_chars(gs)[k] == c);
    }
}

proof fn lemma_groups_chars_index(gs: Seq<AreaGroup>, k: int)
    requires
        0 <= k < groups_chars(gs).len(),
    ensures
        exists|a: int, q: int|
            0 <= a < gs.len() && 0 <= q < gs[a].chars@.len() && groups_chars(gs)[k] == (
            #[trigger] gs[a].chars@[q]),
    decreases gs.len(),
{
    if gs.len() > 0 {
        let m = groups_chars(gs.drop_last()).len();
        if k < m {
            lemma_groups_chars_index(gs.drop_last(), k);
            let (a, q) = choose|a: int, q: int|
                0 <= a < gs.drop_last().len() && 0 <= q < gs.drop_last()[a].chars@.len()
                    && groups_chars(gs.drop_last())[k] == (#[trigger] gs.drop_last()[a].chars@[q]);
            assert(gs[a].chars@[q] == gs.drop_last()[a].chars@[q]);
            assert(groups_chars(gs)[k] == gs[a].chars@[q]);
        } else {
            let a = gs.len() - 1;
            assert(groups_chars(gs)[k] == gs[a].chars@[k - m]);
        }
    }
}

proof fn lemma_arts_chars_index(arts: Seq<SubsetArtifact>, k: int)
    requires
        0 <= k < arts_chars(arts).len(),
    ensures
        exists|j: int, q: int|
            0 <= j < arts.len() && 0 <= q < arts[j].chars@.len() && arts_chars(arts)[k] == (
            #[trigger] arts[j].chars@[q]),
    decreases arts.len(),
{
    if arts.len() > 0 {
        let m = arts_chars(arts.drop_last()).len();
        if k < m {
            lemma_arts_chars_index(arts.drop_last(), k);
            let (j, q) = choose|j: int, q: int|
                0 <= j < arts.drop_last().len() && 0 <= q < arts.drop_last()[j].chars@.len()
                    && arts_chars(arts.drop_last())[k] == (
                #[trigger] arts.drop_last()[j].chars@[q]);
            assert(arts[j].chars@[q] == arts.drop_last()[j].chars@[q]);
            assert(arts_chars(arts)[k] == arts[j].chars@[q]);
        } else {
            let j = arts.len() - 1;
            assert(arts_chars(arts)[k] == arts[j].chars@[k - m]);
        }
    }
}

proof fn lemma_area_count_eq(groups: Seq<AreaGroup>, pa: Seq<CharInfo>, pb: Seq<CharInfo>, r: int)
    requires
        0 <= r <= NUM_AREAS,
        groups.len() == NUM_AREAS,
        forall|x: int|
            0 <= x < NUM_AREAS ==> (#[trigger] groups[x]).chars@ == filter_area(
                pa,
                area_at_rank(x),
            ) + filter_area(pb, area_at_rank(x)),
    ensures
        crate::model::nonempty_count(groups.take(r)) == nonempty_areas_upto(pa, pb, r),
    decreases r,
{
    if r > 0 {
        lemma_area_count_eq(groups, pa, pb, r - 1);
        assert(groups.take(r).drop_last() =~= groups.take(r - 1));
        assert(groups.take(r).last() == groups[r - 1]);
    }
}

/// The partitioner's failure condition, restated over the repertoire.
#[verifier::rlimit(100)]
#[verifier::spinoff_prover]
proof fn lemma_fails_equiv(
    groups: Seq<AreaGroup>,
    pa: Seq<CharInfo>,
    pb: Seq<CharInfo>,
    rep: Seq<CharInfo>,
    target: int,
    tol: int,
    maxc: int,
    auto: bool,
)
    requires
        groups.len() == NUM_AREAS,
        forall|x: int|
            0 <= x < NUM_AREAS ==> (#[trigger] groups[x]).chars@ == filter_area(
                pa,
                area_at_rank(x),
            ) + filter_area(pb, area_at_rank(x)),
        groups_chars(groups).to_multiset() == rep.to_multiset(),
        groups_chars(groups).len() == rep.len(),
    ensures
        plan_fails(groups, target, tol, maxc, auto) <==> ((exists|i: int|
            0 <= i < rep.len() && (#[trigger] rep[i]).size > target + tol) || (if auto {
            rep.len() > 0 && maxc == 0
        } else {
            nonempty_areas_upto(pa, pb, NUM_AREAS as int) > maxc
        })),
{
    broadcast use vstd::seq_lib::group_to_multiset_ensures;

    assert(crate::plan::has_oversize(groups, target + tol) <==> (exists|i: int|
        0 <= i < rep.len() && (#[trigger] rep[i]).size > target + tol)) by {
        if crate::plan::has_oversize(groups, target + tol) {
            let (a, q) = choose|a: int, q: int|
                0 <= a < groups.len() && 0 <= q < groups[a].chars@.len() && (
                #[trigger] groups[a].chars@[q]).size > target + tol;
            lemma_groups_chars_member(groups, a, q);
            let c = groups[a].chars@[q];
            assert(groups_chars(groups).to_multiset().count(c) > 0);
            assert(rep.to_multiset().count(c) > 0);
            assert(rep.contains(c));
            let i = choose|i: int| 0 <= i < rep.len() && rep[i] == c;
            assert(rep[i].size > target + tol);
        }
        if exists|i: int| 0 <= i < rep.len() && (#[trigger] rep[i]).size > target + tol {
            let i = choose|i: int| 0 <= i < rep.len() && (#[trigger] rep[i]).size > target + tol;
            let c = rep[i];
            assert(rep.contains(c));
            assert(rep.to_multiset().count(c) > 0);
            assert(groups_chars(groups).to_multiset().count(c) > 0);
            assert(groups_chars(groups).contains(c));
            let k = choose|k: int|
                0 <= k < groups_chars(groups).len() && groups_chars(groups)[k] == c;
            lemma_groups_chars_index(groups, k);
        }
    }
    lemma_area_count_eq(groups, pa, pb, NUM_AREAS as int);
    assert(groups.take(NUM_AREAS as int) =~= groups);
}

/// Splitting by membership loses and duplicates nothing.
pub proof fn lemma_filter_remain_partition(s: Seq<CharInfo>, rem: Seq<u32>)
    ensures
        filter_remain(s, rem, true).to_multiset().add(filter_remain(s, rem, false).to_multiset())
            == s.to_multiset(),
    decreases s.len(),
{
    broadcast use vstd::seq_lib::group_to_multiset_ensures;

    if s.len() == 0 {
        assert(filter_remain(s, rem, true).to_multiset() =~= Multiset::<CharInfo>::empty());
        assert(filter_remain(s, rem, false).to_multiset() =~= Multiset::<CharInfo>::empty());
        assert(s.to_multiset() =~= Multiset::<CharInfo>::empty());
    } else {
        let s0 = s.drop_last();
        let c = s.last();
        lemma_filter_remain_partition(s0, rem);
        assert(s =~= s0.push(c));
        let ft = filter_remain(s, rem, true);
        let ff = filter_remain(s, rem, false);
        let ft0 = filter_remain(s0, rem, true);
        let ff0 = filter_remain(s0, rem, false);
        if rem.contains(c.cp) {
            assert(ft == ft0 + seq![c]);
            assert(ff == ff0 + Seq::<CharInfo>::empty());
            assert(ff =~= ff0);
            assert(ft =~= ft0.push(c));
            assert(ft.to_multiset() == ft0.to_multiset().insert(c));
            assert(ft.to_multiset().add(ff.to_multiset()) =~= s.to_multiset());
        } else {
            assert(ff == ff0 + seq![c]);
            assert(ft == ft0 + Seq::<CharInfo>::empty());
            assert(ft =~= ft0);
            assert(ff =~= ff0.push(c));
            assert(ff.to_multiset() == ff0.to_multiset().insert(c));
            assert(ft.to_multiset().add(ff.to_multiset()) =~= s.to_multiset());
        }
    }
}

/// The per-area groups of the two repertoire halves cover them exactly:
/// the concatenated group characters are a permutation of the repertoire.
#[verifier::rlimit(100)]
#[verifier::spinoff_prover]
pub proof fn lemma_groups_cover(groups: Seq<AreaGroup>, pa: Seq<CharInfo>, pb: Seq<CharInfo>)
    requires
        groups.len() == NUM_AREAS,
        forall|r: int|
            0 <= r < NUM_AREAS ==> (#[trigger] groups[r]).chars@ == filter_area(
                pa,
                area_at_rank(r),
            ) + filter_area(pb, area_at_rank(r)),
    ensures
        groups_chars(groups).to_multiset() == pa.to_multiset().add(pb.to_multiset()),
        groups_chars(groups).len() == pa.len() + pb.len(),
{
    broadcast use vstd::seq_lib::group_to_multiset_ensures;

    let g8 = groups;
    let g7 = g8.drop_last();
    let g6 = g7.drop_last();
    let g5 = g6.drop_last();
    let g4 = g5.drop_last();
    let g3 = g4.drop_last();
    let g2 = g3.drop_last();
    let g1 = g2.drop_last();
    let g0 = g1.drop_last();
    let ge = g0.drop_last();
    assert(ge.len() == 0);
    assert(groups_chars(ge) == Seq::<CharInfo>::empty());
    let a = |r: int| filter_area(pa, area_at_rank(r));
    let b = |r: int| filter_area(pb, area_at_rank(r));
    assert(g0.last() == groups[0]);
    assert(g1.last() == groups[1]);
    assert(g2.last() == groups[2]);
    assert(g3.last() == groups[3]);
    assert(g4.last() == groups[4]);
    assert(g5.last() == groups[5]);
    assert(g6.last() == groups[6]);
    assert(g7.last() == groups[7]);
    assert(g8.last() == groups[8]);
    assert(groups_chars(g0) == groups_chars(ge) + groups[0].chars@);
    assert(groups_chars(g1) == groups_chars(g0) + groups[1].chars@);
    assert(groups_chars(g2) == groups_chars(g1) + groups[2].chars@);
    assert(groups_chars(g3) == groups_chars(g2) + groups[3].chars@);
    assert(groups_chars(g4) == groups_chars(g3) + groups[4].chars@);
    assert(groups_chars(g5) == groups_chars(g4) + groups[5].chars@);
    assert(groups_chars(g6) == groups_chars(g5) + groups[6].chars@);
    assert(groups_chars(g7) == groups_chars(g6) + groups[7].chars@);
    assert(groups_chars(g8) == groups_chars(g7) + groups[8].chars@);
    assert(groups_chars(groups) == Seq::<CharInfo>::empty() + (a(0) + b(0)) + (a(1) + b(1)) + (
    a(2) + b(2)) + (a(3) + b(3)) + (a(4) + b(4)) + (a(5) + b(5)) + (a(6) + b(6)) + (a(7) + b(
        7,
    )) + (a(8) + b(8)));
    let whole = groups_chars(groups);
    assert(whole.to_multiset() == a(0).to_multiset().add(b(0).to_multiset()).add(
        a(1).to_multiset(),
    ).add(b(1).to_multiset()).add(a(2).to_multiset()).add(b(2).to_multiset()).add(
        a(3).to_multiset(),
    ).add(b(3).to_multiset()).add(a(4).to_multiset()).add(b(4).to_multiset()).add(
        a(5).to_multiset(),
    ).add(b(5).to_multiset()).add(a(6).to_multiset()).add(b(6).to_multiset()).add(
        a(7).to_multiset(),
    ).add(b(7).to_multiset()).add(a(8).to_multiset()).add(b(8).to_multiset())) by {
        lemma_cat_ms_18(a(0), b(0), a(1), b(1), a(2), b(2), a(3), b(3), a(4), b(4), a(5), b(5),
            a(6), b(6), a(7), b(7), a(8), b(8));
        assert(Seq::<CharInfo>::empty() + (a(0) + b(0)) =~= a(0) + b(0));
        assert(whole =~= a(0) + b(0) + a(1) + b(1) + a(2) + b(2) + a(3) + b(3) + a(4) + b(4) + a(
            5,
        ) + b(5) + a(6) + b(6) + a(7) + b(7) + a(8) + b(8));
    }
    lemma_classified_cat(pa);
    lemma_classified_cat(pb);
    lemma_classified_permutation(pa);
    lemma_classified_permutation(pb);
    assert(whole.to_multiset() =~= pa.to_multiset().add(pb.to_multiset()));
    assert(whole.len() == classified(pa).len() + classified(pb).len());
    assert(classified(pa).len() == pa.to_multiset().len());
    assert(classified(pb).len() == pb.to_multiset().len());
}

proof fn lemma_cat_ms_2(x: Seq<CharInfo>, y: Seq<CharInfo>)
    ensures
        (x + y).to_multiset() == x.to_multiset().add(y.to_multiset()),
{
    vstd::seq_lib::lemma_multiset_commutative(x, y);
}

#[verifier::rlimit(100)]
proof fn lemma_cat_ms_18(
    x0: Seq<CharInfo>,
    x1: Seq<CharInfo>,
    x2: Seq<CharInfo>,
    x3: Seq<CharInfo>,
    x4: Seq<CharInfo>,
    x5: Seq<CharInfo>,
    x6: Seq<CharInfo>,
    x7: Seq<CharInfo>,
    x8: Seq<CharInfo>,
    x9: Seq<CharInfo>,
    x10: Seq<CharInfo>,
    x11: Seq<CharInfo>,
    x12: Seq<CharInfo>,
    x13: Seq<CharInfo>,
    x14: Seq<CharInfo>,
    x15: Seq<CharInfo>,
    x16: Seq<CharInfo>,
    x17: Seq<CharInfo>,
)
    ensures
        (x0 + x1 + x2 + x3 + x4 + x5 + x6 + x7 + x8 + x9 + x10 + x11 + x12 + x13 + x14 + x15
            + x16 + x17).to_multiset() == x0.to_multiset().add(x1.to_multiset()).add(
            x2.to_multiset(),
        ).add(x3.to_multiset()).add(x4.to_multiset()).add(x5.to_multiset()).add(
            x6.to_multiset(),
        ).add(x7.to_multiset()).add(x8.to_multiset()).add(x9.to_multiset()).add(
            x10.to_multiset(),
        ).add(x11.to_multiset()).add(x12.to_multiset()).add(x13.to_multiset()).add(
            x14.to_multiset(),
        ).add(x15.to_multiset()).add(x16.to_multiset()).add(x17.to_multiset()),
{
    lemma_cat_ms_2(x0, x1);
    lemma_cat_ms_2(x0 + x1, x2);
    lemma_cat_ms_2(x0 + x1 + x2, x3);
    lemma_cat_ms_2(x0 + x1 + x2 + x3, x4);
    lemma_cat_ms_2(x0 + x1 + x2 + x3 + x4, x5);
    lemma_cat_ms_2(x0 + x1 + x2 + x3 + x4 + x5, x6);
    lemma_cat_ms_2(x0 + x1 + x2 + x3 + x4 + x5 + x6, x7);
    lemma_cat_ms_2(x0 + x1 + x2 + x3 + x4 + x5 + x6 + x7, x8);
    lemma_cat_ms_2(x0 + x1 + x2 + x3 + x4 + x5 + x6 + x7 + x8, x9);
    lemma_cat_ms_2(x0 + x1 + x2 + x3 + x4 + x5 + x6 + x7 + x8 + x9, x10);
    lemma_cat_ms_2(x0 + x1 + x2 + x3 + x4 + x5 + x6 + x7 + x8 + x9 + x10, x11);
    lemma_cat_ms_2(x0 + x1 + x2 + x3 + x4 + x5 + x6 + x7 + x8 + x9 + x10 + x11, x12);
    lemma_cat_ms_2(x0 + x1 + x2 + x3 + x4 + x5 + x6 + x7 + x8 + x9 + x10 + x11 + x12, x13);
    lemma_cat_ms_2(x0 + x1 + x2 + x3 + x4 + x5 + x6 + x7 + x8 + x9 + x10 + x11 + x12 + x13, x14);
    lemma_cat_ms_2(
        x0 + x1 + x2 + x3 + x4 + x5 + x6 + x7 + x8 + x9 + x10 + x11 + x12 + x13 + x14,
        x15,
    );
    lemma_cat_ms_2(
        x0 + x1 + x2 + x3 + x4 + x5 + x6 + x7 + x8 + x9 + x10 + x11 + x12 + x13 + x14 + x15,
        x16,
    );
    lemma_cat_ms_2(
        x0 + x1 + x2 + x3 + x4 + x5 + x6 + x7 + x8 + x9 + x10 + x11 + x12 + x13 + x14 + x15
            + x16,
        x17,
    );
}

/// The classified repertoire's multiset as the sum of the area filters'.
proof fn lemma_classified_cat(s: Seq<CharInfo>)
    ensures
        classified(s).to_multiset() == filter_area(s, area_at_rank(0)).to_multiset().add(
            filter_area(s, area_at_rank(1)).to_multiset(),
        ).add(filter_area(s, area_at_rank(2)).to_multiset()).add(
            filter_area(s, area_at_rank(3)).to_multiset(),
        ).add(filter_area(s, area_at_rank(4)).to_multiset()).add(
            filter_area(s, area_at_rank(5)).to_multiset(),
        ).add(filter_area(s, area_at_rank(6)).to_multiset()).add(
            filter_area(s, area_at_rank(7)).to_multiset(),
        ).add(filter_area(s, area_at_rank(8)).to_multiset()),
{
    let f = |r: int| filter_area(s, area_at_rank(r));
    lemma_cat_ms_2(f(0), f(1));
    lemma_cat_ms_2(f(0) + f(1), f(2));
    lemma_cat_ms_2(f(0) + f(1) + f(2), f(3));
    lemma_cat_ms_2(f(0) + f(1) + f(2) + f(3), f(4));
    lemma_cat_ms_2(f(0) + f(1) + f(2) + f(3) + f(4), f(5));
    lemma_cat_ms_2(f(0) + f(1) + f(2) + f(3) + f(4) + f(5), f(6));
    lemma_cat_ms_2(f(0) + f(1) + f(2) + f(3) + f(4) + f(5) + f(6), f(7));
    lemma_cat_ms_2(f(0) + f(1) + f(2) + f(3) + f(4) + f(5) + f(6) + f(7), f(8));
}

/// Does a vector hold this codepoint?
fn contains_u32(v: &Vec<u32>, x: u32) -> (r: bool)
    ensures
        r <==> v@.contains(x),
{
    let mut i: usize = 0;
    while i < v.len()
        invariant
            i <= v@.len(),
            forall|q: int| 0 <= q < i ==> (#[trigger] v@[q]) != x,
        decreases v@.len() - i,
    {
        if v[i] == x {
            return true;
        }
        i = i + 1;
    }
    false
}

/// Does a vector hold this area?
fn contains_area(v: &Vec<Area>, x: Area) -> (r: bool)
    ensures
        r <==> v@.contains(x),
{
    let mut i: usize = 0;
    while i < v.len()
        invariant
            i <= v@.len(),
            forall|q: int| 0 <= q < i ==> (#[trigger] v@[q]) != x,
        decreases v@.len() - i,
    {
        if crate::model::areas_equal(v[i], x) {
            return true;
        }
        i = i + 1;
    }
    false
}


proof fn lemma_ser_refs_len(s: Seq<u16>)
    ensures
        crate::font::ser_refs(s).len() == 2 * s.len(),
    decreases s.len(),
{
    if s.len() > 0 {
        lemma_ser_refs_len(s.drop_last());
    }
}

proof fn lemma_ser_glyph_len(g: crate::font::GlyphS)
    ensures
        ser_glyph(g).len() == 3 + 2 * g.refs.len() + g.data.len(),
{
    lemma_ser_refs_len(g.refs);
}

/// Is some artifact covering this codepoint?
fn artifact_covers(arts: &Vec<SubsetArtifact>, cp: u32) -> (r: bool)
    ensures
        r <==> exists|i: int, q: int|
            0 <= i < arts@.len() && 0 <= q < arts@[i].chars@.len() && (
            #[trigger] arts@[i].chars@[q]).cp == cp,
{
    let mut i: usize = 0;
    while i < arts.len()
        invariant
            i <= arts@.len(),
            forall|x: int, q: int|
                0 <= x < i && 0 <= q < arts@[x].chars@.len() ==> (
                #[trigger] arts@[x].chars@[q]).cp != cp,
        decreases arts@.len() - i,
    {
        let a = &arts[i];
        let mut q: usize = 0;
        while q < a.chars.len()
            invariant
                q <= a.chars@.len(),
                i < arts@.len(),
                a == arts@[i as int],
                forall|y: int| 0 <= y < q ==> (#[trigger] a.chars@[y]).cp != cp,
            decreases a.chars@.len() - q,
        {
            if a.chars[q].cp == cp {
                proof {
                    assert(arts@[i as int].chars@[q as int].cp == cp);
                }
                return true;
            }
            q = q + 1;
        }
        i = i + 1;
    }
    false
}

/// The end-to-end pipeline: parses the font, classifies its retained
/// repertoire into language areas, plans the chunks, builds one subset
/// artifact per chunk in plan order, verifies coverage, and reports one
/// event around every stage plus one per artifact. On success the
/// artifacts' characters are exactly the retained repertoire — no
/// character lost, none duplicated — within the configured subset count.
/// On failure the event stream ends with the error.
#[verifier::rlimit(100)]
#[verifier::spinoff_prover]
/// Do all explicitly requested characters — the `subsets` list and the
/// guaranteed characters — resolve to glyphs of the font?
#[verifier::spinoff_prover]
fn check_requests(f: &FontModel, cfg: &SubsetConfig) -> (ok: bool)
    ensures
        ok <==> !has_unresolved_request(f@, *cfg),
{
    match &cfg.subsets {
        Some(ss) => {
            let mut qi: usize = 0;
            while qi < ss.len()
                invariant
                    qi <= ss@.len(),
                    cfg.subsets matches Some(s2) && s2@ == ss@,
                    forall|x: int| 0 <= x < qi ==> resolves(f@, #[trigger] ss@[x]),
                decreases ss@.len() - qi,
            {
                match glyph_for(f, ss[qi]) {
                    Some(_) => {},
                    None => {
                        proof {
                            assert(!resolves(f@, ss@[qi as int]));
                        }
                        return false;
                    },
                }
                qi = qi + 1;
            }
        },
        None => {},
    }
    let mut qi: usize = 0;
    while qi < cfg.subset_remain_chars.len()
        invariant
            qi <= cfg.subset_remain_chars@.len(),
            cfg.subsets matches Some(ss) ==> forall|x: int|
                0 <= x < ss@.len() ==> resolves(f@, #[trigger] ss@[x]),
            forall|x: int|
                0 <= x < qi ==> resolves(f@, #[trigger] cfg.subset_remain_chars@[x]),
        decreases cfg.subset_remain_chars@.len() - qi,
    {
        match glyph_for(f, cfg.subset_remain_chars[qi]) {
            Some(_) => {},
            None => {
                proof {
                    assert(!resolves(f@, cfg.subset_remain_chars@[qi as int]));
                }
                return false;
            },
        }
        qi = qi + 1;
    }
    true
}

/// Collects the retained repertoire in character-map order, with each
/// character's size estimate.
#[verifier::spinoff_prover]
fn build_repertoire(f: &FontModel, cfg: &SubsetConfig) -> (rep: Vec<CharInfo>)
    requires
        font_wf(f@),
    ensures
        rep@ == retained(f@, *cfg),
{
    let mut rep: Vec<CharInfo> = Vec::new();
    let mut i: usize = 0;
    while i < f.cmap.len()
        invariant
            i <= f.cmap@.len(),
            font_wf(f@),
            f@.cmap == f.cmap@,
            rep@ == retained(
                FontS { cmap: f@.cmap.take(i as int), glyphs: f@.glyphs, meta: f@.meta },
                *cfg,
            ),
        decreases f.cmap@.len() - i,
    {
        let e = f.cmap[i];
        let keep = (match &cfg.subsets {
            Some(ss) => contains_u32(ss, e.cp),
            None => true,
        }) && (match &cfg.language_areas {
            Some(la) => contains_area(la, classify(e.cp)),
            None => true,
        });
        proof {
            assert(keep == keep_cp(*cfg, e.cp));
        }
        if keep {
            let gl = &f.glyphs[e.gid as usize];
            proof {
                assert(f@.glyphs[e.gid as int] == gl@);
                lemma_ser_glyph_len(gl@);
            }
            let size: u32 = 3 + 2 * (gl.refs.len() as u32) + (gl.data.len() as u32);
            rep.push(CharInfo { cp: e.cp, size });
        }
        proof {
            let cur = FontS { cmap: f@.cmap.take(i + 1), glyphs: f@.glyphs, meta: f@.meta };
            let prev = FontS { cmap: cur.cmap.drop_last(), glyphs: cur.glyphs, meta: cur.meta };
            assert(cur.cmap.drop_last() =~= f@.cmap.take(i as int));
            assert(prev =~= FontS {
                cmap: f@.cmap.take(i as int),
                glyphs: f@.glyphs,
                meta: f@.meta,
            });
            assert(cur.cmap.last() == f@.cmap[i as int]);
            assert(rep@ =~= retained(cur, *cfg));
        }
        i = i + 1;
    }
    proof {
        assert(f@.cmap.take(f@.cmap.len() as int) =~= f@.cmap);
        assert(FontS { cmap: f@.cmap, glyphs: f@.glyphs, meta: f@.meta } =~= f@);
    }
    rep
}

/// Splits the repertoire into the guaranteed characters and the rest,
/// both in repertoire order.
#[verifier::spinoff_prover]
fn partition_remain(rep: &Vec<CharInfo>, rem: &Vec<u32>) -> (r: (Vec<CharInfo>, Vec<CharInfo>))
    ensures
        r.0@ == filter_remain(rep@, rem@, true),
        r.1@ == filter_remain(rep@, rem@, false),
{
    let mut pa: Vec<CharInfo> = Vec::new();
    let mut pb: Vec<CharInfo> = Vec::new();
    let mut i: usize = 0;
    while i < rep.len()
        invariant
            i <= rep@.len(),
            pa@ == filter_remain(rep@.take(i as int), rem@, true),
            pb@ == filter_remain(rep@.take(i as int), rem@, false),
        decreases rep@.len() - i,
    {
        let c = rep[i];
        proof {
            assert(rep@.take(i + 1).drop_last() =~= rep@.take(i as int));
            assert(rep@.take(i + 1).last() == rep@[i as int]);
        }
        if contains_u32(rem, c.cp) {
            pa.push(c);
        } else {
            pb.push(c);
        }
        proof {
            assert(pa@ =~= filter_remain(rep@.take(i + 1), rem@, true));
            assert(pb@ =~= filter_remain(rep@.take(i + 1), rem@, false));
        }
        i = i + 1;
    }
    proof {
        assert(rep@.take(rep@.len() as int) =~= rep@);
    }
    (pa, pb)
}

/// The classification facts the planner rests on: the groups cover the
/// repertoire exactly, and hold only characters of their own area.
#[verifier::spinoff_prover]
proof fn lemma_classified_groups(
    groups: Seq<AreaGroup>,
    pa: Seq<CharInfo>,
    pb: Seq<CharInfo>,
    rep: Seq<CharInfo>,
    rem: Seq<u32>,
)
    requires
        groups.len() == NUM_AREAS,
        forall|r: int|
            0 <= r < NUM_AREAS ==> (#[trigger] groups[r]).chars@ == filter_area(
                pa,
                area_at_rank(r),
            ) + filter_area(pb, area_at_rank(r)),
        pa == filter_remain(rep, rem, true),
        pb == filter_remain(rep, rem, false),
    ensures
        groups_chars(groups).to_multiset() == rep.to_multiset(),
        groups_chars(groups).len() == rep.len(),
        forall|r: int, q: int|
            0 <= r < NUM_AREAS && 0 <= q < groups[r].chars@.len() ==> area_of(
                (#[trigger] groups[r].chars@[q]).cp,
            ) == area_at_rank(r),
{
    lemma_groups_cover(groups, pa, pb);
    lemma_filter_remain_partition(rep, rem);
    broadcast use vstd::seq_lib::group_to_multiset_ensures;
    broadcast use vstd::multiset::group_multiset_axioms;

    assert(groups_chars(groups).to_multiset() == pa.to_multiset().add(pb.to_multiset()));
    assert(pa.to_multiset().add(pb.to_multiset()) == rep.to_multiset());
    assert(pa.to_multiset().len() == pa.len());
    assert(pb.to_multiset().len() == pb.len());
    assert(rep.to_multiset().len() == rep.len());
    assert(pa.to_multiset().add(pb.to_multiset()).len() == pa.to_multiset().len()
        + pb.to_multiset().len());
    assert forall|r: int, q: int|
        0 <= r < NUM_AREAS && 0 <= q < groups[r].chars@.len() implies area_of(
        (#[trigger] groups[r].chars@[q]).cp,
    ) == area_at_rank(r) by {
        let fa = filter_area(pa, area_at_rank(r));
        let fb = filter_area(pb, area_at_rank(r));
        lemma_filter_area_members(pa, area_at_rank(r));
        lemma_filter_area_members(pb, area_at_rank(r));
        if q < fa.len() {
            assert(groups[r].chars@[q] == fa[q]);
        } else {
            assert(groups[r].chars@[q] == fb[q - fa.len()]);
        }
    }
}

/// Builds one subset artifact per planned chunk, in plan order. Every
/// planned character resolves, so no build can fail.
#[verifier::spinoff_prover]
fn build_artifacts(f: &FontModel, p: &Vec<PlanGroup>, minify: bool) -> (arts: Vec<
    SubsetArtifact,
>)
    requires
        font_wf(f@),
        forall|q: int, j: int|
            0 <= q < p@.len() && 0 <= j < p@[q].chars@.len() ==> resolves(
                f@,
                (#[trigger] p@[q].chars@[j]).cp,
            ),
    ensures
        arts@.len() == p@.len(),
        arts_chars(arts@) == chunks_chars(p@),
        forall|q: int| 0 <= q < arts@.len() ==> (#[trigger] arts@[q]).chars@ == p@[q].chars@,
        forall|q: int| 0 <= q < arts@.len() ==> (#[trigger] arts@[q]).index == q,
{
    let mut arts: Vec<SubsetArtifact> = Vec::new();
    let mut i: usize = 0;
    while i < p.len()
        invariant
            i <= p@.len(),
            font_wf(f@),
            forall|q: int, j: int|
                0 <= q < p@.len() && 0 <= j < p@[q].chars@.len() ==> resolves(
                    f@,
                    (#[trigger] p@[q].chars@[j]).cp,
                ),
            arts@.len() == i,
            arts_chars(arts@) == chunks_chars(p@.take(i as int)),
            forall|q: int| 0 <= q < i ==> (#[trigger] arts@[q]).chars@ == p@[q].chars@,
            forall|q: int| 0 <= q < i ==> (#[trigger] arts@[q]).index == q,
        decreases p@.len() - i,
    {
        let a = match build_subset(f, &p[i], i, minify) {
            Ok(a) => a,
            Err(_) => {
                // cannot happen: every planned character resolves
                proof {
                    let i0 = choose|i0: int|
                        0 <= i0 < p@[i as int].chars@.len() && !resolves(
                            f@,
                            (#[trigger] p@[i as int].chars@[i0]).cp,
                        );
                    assert(false);
                }
                return arts;
            },
        };
        proof {
            assert(p@.take(i + 1).drop_last() =~= p@.take(i as int));
            assert(p@.take(i + 1).last() == p@[i as int]);
            assert(a.chars@ == p@[i as int].chars@);
        }
        let ghost aprev = arts@;
        arts.push(a);
        proof {
            assert(arts@.drop_last() =~= aprev);
            assert(arts_chars(arts@) =~= chunks_chars(p@.take(i + 1)));
        }
        i = i + 1;
    }
    proof {
        assert(p@.take(p@.len() as int) =~= p@);
    }
    arts
}

/// The finalize verification: every retained character is covered by
/// some artifact. The artifacts' characters are a permutation of the
/// repertoire, so the check always passes.
#[verifier::spinoff_prover]
fn verify_coverage(arts: &Vec<SubsetArtifact>, rep: &Vec<CharInfo>) -> (ok: bool)
    requires
        arts_chars(arts@).to_multiset() == rep@.to_multiset(),
    ensures
        ok,
{
    let mut i: usize = 0;
    while i < rep.len()
        invariant
            i <= rep@.len(),
            arts_chars(arts@).to_multiset() == rep@.to_multiset(),
        decreases rep@.len() - i,
    {
        if !artifact_covers(arts, rep[i].cp) {
            proof {
                broadcast use vstd::seq_lib::group_to_multiset_ensures;

                let c = rep@[i as int];
                assert(rep@.contains(c));
                assert(rep@.to_multiset().count(c) > 0);
                assert(arts_chars(arts@).to_multiset().count(c) > 0);
                assert(arts_chars(arts@).contains(c));
                let k = choose|k: int|
                    0 <= k < arts_chars(arts@).len() && arts_chars(arts@)[k] == c;
                lemma_arts_chars_index(arts@, k);
                assert(false);
            }
            return false;
        }
        i = i + 1;
    }
    true
}

/// The end-to-end pipeline: parses the font, checks the requested
/// characters, classifies the retained repertoire into language areas,
/// plans the chunks, builds one subset artifact per chunk in plan order,
/// verifies coverage, and reports one event around every stage plus one
/// per artifact. On success the artifacts' characters are exactly the
/// retained repertoire — no character lost, none duplicated — within the
/// configured subset count, with every guaranteed character placed no
/// later than the first artifact of its area. On failure the event
/// stream ends with the error, and each error names its exact cause: a
/// binary no well-formed font serializes to, a requested character the
/// font cannot resolve, or an unsatisfiable plan.
#[verifier::rlimit(100)]
#[verifier::spinoff_prover]
pub fn font_split(font_bytes: &Vec<u8>, cfg: &SubsetConfig) -> (r: (
    Result<Vec<SubsetArtifact>, SubsetError>,
    Vec<ProgressEvent>,
))
    ensures
        match r.0 {
            Ok(arts) => {
                &&& ok_events(arts@.len() as int, r.1@)
                &&& arts@.len() <= cfg.max_allow_subsets_count
                &&& forall|i: int| 0 <= i < arts@.len() ==> (#[trigger] arts@[i]).index == i
                &&& exists|fs: FontS|
                    {
                        &&& font_wf(fs)
                        &&& ser_font(fs) == font_bytes@
                        &&& arts_chars(arts@).to_multiset() == retained(fs, *cfg).to_multiset()
                        &&& forall|c: CharInfo|
                            filter_remain(
                                retained(fs, *cfg),
                                cfg.subset_remain_chars@,
                                true,
                            ).contains(c) ==> art_guaranteed_first(arts@, c)
                        &&& !has_unresolved_request(fs, *cfg)
                        &&& !split_plan_fails(fs, *cfg)
                    }
            },
            Err(e) => {
                &&& r.1@.len() > 0
                &&& r.1@.last().tag == EventTag::ErrorHalt
                &&& r.1@.last().detail == Some(e)
                &&& (e == SubsetError::MalformedFont || e == SubsetError::CoverageGap || e
                    == SubsetError::PlanUnsatisfiable)
                &&& (e == SubsetError::MalformedFont <==> (forall|fs: FontS|
                    !(#[trigger] encodes(fs, font_bytes@))))
                &&& (e == SubsetError::CoverageGap <==> (exists|fs: FontS|
                    #[trigger] encodes(fs, font_bytes@) && has_unresolved_request(fs, *cfg)))
                &&& (e == SubsetError::PlanUnsatisfiable <==> (exists|fs: FontS|
                    #[trigger] encodes(fs, font_bytes@) && !has_unresolved_request(fs, *cfg)
                        && split_plan_fails(fs, *cfg)))
            },
        },
{
    let mut events: Vec<ProgressEvent> = Vec::new();
    let f = match parse(font_bytes) {
        Ok(f) => f,
        Err(e) => {
            events.push(ProgressEvent { tag: EventTag::ErrorHalt, detail: Some(e) });
            return (Err(e), events);
        },
    };
    proof {
        assert(encodes(f@, font_bytes@));
    }
    // every explicitly requested character must resolve: no silent drops
    if !check_requests(&f, cfg) {
        events.push(
            ProgressEvent { tag: EventTag::ErrorHalt, detail: Some(SubsetError::CoverageGap) },
        );
        return (Err(SubsetError::CoverageGap), events);
    }
    events.push(ProgressEvent { tag: EventTag::ClassifyStart, detail: None });
    let rep = build_repertoire(&f, cfg);
    // guaranteed characters first, stably
    let rem = &cfg.subset_remain_chars;
    let (pa, pb) = partition_remain(&rep, rem);
    let groups = group_by_area(&pa, &pb);
    events.push(ProgressEvent { tag: EventTag::ClassifyEnd, detail: None });
    proof {
        lemma_classified_groups(groups@, pa@, pb@, rep@, rem@);
        vstd::std_specs::vec::axiom_spec_len(&rep);
    }
    let p = match plan(
        &groups,
        cfg.chunk_size,
        cfg.chunk_size_tolerance,
        cfg.max_allow_subsets_count,
        cfg.auto_subset,
    ) {
        Ok(p) => p,
        Err(e) => {
            events.push(ProgressEvent { tag: EventTag::ErrorHalt, detail: Some(e) });
            proof {
                lemma_fails_equiv(
                    groups@,
                    pa@,
                    pb@,
                    rep@,
                    cfg.chunk_size as int,
                    cfg.chunk_size_tolerance as int,
                    cfg.max_allow_subsets_count as int,
                    cfg.auto_subset,
                );
                assert(retained(f@, *cfg) == rep@);
                assert(split_plan_fails(f@, *cfg));
            }
            return (Err(e), events);
        },
    };
    proof {
        lemma_fails_equiv(
            groups@,
            pa@,
            pb@,
            rep@,
            cfg.chunk_size as int,
            cfg.chunk_size_tolerance as int,
            cfg.max_allow_subsets_count as int,
            cfg.auto_subset,
        );
        assert(retained(f@, *cfg) == rep@);
        assert(!split_plan_fails(f@, *cfg));
        lemma_retained_resolves(f@, *cfg);
        broadcast use vstd::seq_lib::group_to_multiset_ensures;

        assert forall|q: int, j: int|
            0 <= q < p@.len() && 0 <= j < p@[q].chars@.len() implies resolves(
            f@,
            (#[trigger] p@[q].chars@[j]).cp,
        ) by {
            crate::model::lemma_chunks_chars_member(p@, q, j);
            let c = p@[q].chars@[j];
            assert(chunks_chars(p@).to_multiset().count(c) > 0);
            assert(rep@.to_multiset().count(c) > 0);
            assert(rep@.contains(c));
            let x = choose|x: int| 0 <= x < rep@.len() && rep@[x] == c;
            assert(resolves(f@, rep@[x].cp));
        }
    }
    events.push(ProgressEvent { tag: EventTag::PlanReady, detail: None });
    // one artifact per chunk, in plan order
    let arts = build_artifacts(&f, &p, cfg.reduce_mins);
    proof {
        assert(arts_chars(arts@).to_multiset() == rep@.to_multiset());
    }
    let mut i: usize = 0;
    while i < arts.len()
        invariant
            i <= arts@.len(),
            events@.len() == 3 + i,
            events@[0].tag == EventTag::ClassifyStart,
            events@[1].tag == EventTag::ClassifyEnd,
            events@[2].tag == EventTag::PlanReady,
            forall|q: int| 3 <= q < 3 + i ==> (#[trigger] events@[q]).tag == EventTag::SubsetBuilt,
        decreases arts@.len() - i,
    {
        events.push(ProgressEvent { tag: EventTag::SubsetBuilt, detail: None });
        i = i + 1;
    }
    // finalize: verify full coverage of the retained repertoire
    let covered = verify_coverage(&arts, &rep);
    if !covered {
        events.push(
            ProgressEvent { tag: EventTag::ErrorHalt, detail: Some(SubsetError::CoverageGap) },
        );
        return (Err(SubsetError::CoverageGap), events);
    }
    events.push(ProgressEvent { tag: EventTag::FinalizeDone, detail: None });
    proof {
        assert(ok_events(arts@.len() as int, events@));
        assert(arts_chars(arts@).to_multiset() == retained(f@, *cfg).to_multiset());
        assert(font_wf(f@) && ser_font(f@) == font_bytes@);
        assert forall|c: CharInfo|
            filter_remain(retained(f@, *cfg), cfg.subset_remain_chars@, true).contains(
                c,
            ) implies art_guaranteed_first(arts@, c) by {
            lemma_remain_member_guaranteed(groups@, pa@, pb@, p@, c);
            lemma_transfer_guaranteed(p@, arts@, c);
        }
    }
    (Ok(arts), events)
}

/// A guaranteed character stays guaranteed in the artifacts, whose
/// character lists equal the plan's chunk by chunk.
proof fn lemma_transfer_guaranteed(
    p: Seq<crate::model::PlanGroup>,
    arts: Seq<SubsetArtifact>,
    c: CharInfo,
)
    requires
        arts.len() == p.len(),
        forall|q: int| 0 <= q < p.len() ==> (#[trigger] arts[q]).chars@ == p[q].chars@,
        crate::plan::guaranteed_first(p, c),
    ensures
        art_guaranteed_first(arts, c),
{
    let ar = area_of(c.cp);
    assert forall|j: int|
        0 <= j < arts.len() && crate::plan::has_area_char(
            (#[trigger] arts[j]).chars@,
            ar,
        ) implies exists|k: int| 0 <= k <= j && (#[trigger] arts[k]).chars@.contains(c) by {
        assert(crate::plan::has_area_char(p[j].chars@, ar));
        let k = choose|k: int| 0 <= k <= j && (#[trigger] p[k]).chars@.contains(c);
        assert(arts[k].chars@.contains(c));
    }
}

/// Every guaranteed character of the repertoire is one of its area
/// group's remain entries, so the plan guarantees its placement.
proof fn lemma_remain_member_guaranteed(
    groups: Seq<AreaGroup>,
    pa: Seq<CharInfo>,
    pb: Seq<CharInfo>,
    p: Seq<crate::model::PlanGroup>,
    c: CharInfo,
)
    requires
        groups.len() == NUM_AREAS,
        forall|r: int|
            0 <= r < NUM_AREAS ==> (#[trigger] groups[r]).chars@ == filter_area(
                pa,
                area_at_rank(r),
            ) + filter_area(pb, area_at_rank(r)),
        forall|r: int|
            0 <= r < NUM_AREAS ==> (#[trigger] groups[r]).n_remain == filter_area(
                pa,
                area_at_rank(r),
            ).len(),
        forall|a: int, ci: int|
            0 <= a < NUM_AREAS && 0 <= ci < groups[a].n_remain ==> crate::plan::guaranteed_first(
                p,
                (#[trigger] groups[a].chars@[ci]),
            ),
        pa.contains(c),
    ensures
        crate::plan::guaranteed_first(p, c),
{
    crate::classify::lemma_every_area_has_rank(area_of(c.cp));
    let r = choose|r: int| 0 <= r < NUM_AREAS && area_at_rank(r) == area_of(c.cp);
    lemma_filter_area_members(pa, area_at_rank(r));
    assert(filter_area(pa, area_at_rank(r)).contains(c));
    let ci = choose|ci: int|
        0 <= ci < filter_area(pa, area_at_rank(r)).len() && filter_area(pa, area_at_rank(r))[ci]
            == c;
    assert(groups[r].chars@[ci] == c);
    assert(crate::plan::guaranteed_first(p, groups[r].chars@[ci]));
}

} // verus!
