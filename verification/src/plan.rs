//! The partitioner: turns per-area character groups into an ordered
//! sequence of byte-size-bounded chunks under a hard chunk-count ceiling.
//!
//! Within one area, characters are accumulated greedily: the current chunk
//! is closed before a character is added only when adding it would push the
//! estimate above `target + tolerance` while the chunk already reached
//! `target - tolerance` (a soft window, so no pathological one-character
//! chunks arise), and never while the area's guaranteed characters are
//! still being placed. When the total chunk count exceeds the ceiling,
//! smallest adjacent chunks merge first — within one area before across
//! areas, the latter only in auto-subset mode — until the count holds or
//! no further merge is allowed.

use vstd::prelude::*;
use crate::classify::{Area, area_of, area_at_rank, NUM_AREAS};
use crate::errors::SubsetError;
use crate::model::{
    CharInfo, AreaGroup, PlanGroup, size_of, chunks_chars, groups_chars, nonempty_count,
    lemma_size_of_bound, lemma_chunks_chars_push, lemma_chunks_chars_member,
};

verus! {

/// All size estimates of `s` fit inside twice the tolerance: the condition
/// under which the greedy window cannot overshoot.
pub open spec fn small_sizes(s: Seq<CharInfo>, tolerance: int) -> bool {
    forall|k: int| 0 <= k < s.len() ==> (#[trigger] s[k].size) <= 2 * tolerance
}

/// Does the greedy window close the current chunk before `c` is added?
/// Only after the guaranteed characters are placed, only once the chunk
/// reached `target - tolerance`, and only when adding `c` would push it
/// past `target + tolerance`.
pub open spec fn closes_chunk(
    cur: Seq<CharInfo>,
    c: CharInfo,
    i: int,
    n_remain: int,
    target: int,
    tolerance: int,
) -> bool {
    &&& cur.len() > 0
    &&& i >= n_remain
    &&& size_of(cur) >= (if tolerance >= target {
        0int
    } else {
        target - tolerance
    })
    &&& size_of(cur) + c.size > target + tolerance
}

/// The greedy chunking, from position `i` with open chunk `cur`.
pub open spec fn greedy_rec(
    chars: Seq<CharInfo>,
    i: int,
    cur: Seq<CharInfo>,
    n_remain: int,
    target: int,
    tolerance: int,
) -> Seq<Seq<CharInfo>>
    decreases chars.len() - i,
{
    if !(0 <= i < chars.len()) {
        if cur.len() == 0 {
            Seq::empty()
        } else {
            seq![cur]
        }
    } else {
        let c = chars[i];
        if closes_chunk(cur, c, i, n_remain, target, tolerance) {
            seq![cur] + greedy_rec(chars, i + 1, seq![c], n_remain, target, tolerance)
        } else {
            greedy_rec(chars, i + 1, cur.push(c), n_remain, target, tolerance)
        }
    }
}

/// The greedy chunking of one area's characters: what `plan_area` emits.
pub open spec fn greedy_chunks(
    chars: Seq<CharInfo>,
    n_remain: int,
    target: int,
    tolerance: int,
) -> Seq<Seq<CharInfo>> {
    greedy_rec(chars, 0, Seq::empty(), n_remain, target, tolerance)
}

/// The character lists of a chunk sequence.
pub open spec fn chunk_seqs(p: Seq<PlanGroup>) -> Seq<Seq<CharInfo>> {
    p.map_values(|g: PlanGroup| g.chars@)
}

/// The greedy chunkings of every area, concatenated in area order: the
/// plan before any merging.
pub open spec fn greedy_plan(gs: Seq<AreaGroup>, target: int, tolerance: int) -> Seq<
    Seq<CharInfo>,
>
    decreases gs.len(),
{
    if gs.len() == 0 {
        Seq::empty()
    } else {
        greedy_plan(gs.drop_last(), target, tolerance) + greedy_chunks(
            gs.last().chars@,
            gs.last().n_remain as int,
            target,
            tolerance,
        )
    }
}

/// Greedy chunking of one area's characters.
///
/// The result covers `chars` exactly, in order; every chunk is non-empty
/// and tagged with the area; the first `n_remain` characters (the
/// guaranteed ones) all land in the first chunk. Every chunk but the last
/// was closed at no less than `target - tolerance`, and — provided no
/// single character is larger than twice the tolerance and the tolerance
/// does not exceed the target — every chunk but the last stays within
/// `target + tolerance`, except possibly a first chunk forced large by the
/// guaranteed characters.
pub fn plan_area(
    area: Area,
    chars: &Vec<CharInfo>,
    n_remain: usize,
    target: u64,
    tolerance: u64,
) -> (r: Vec<PlanGroup>)
    requires
        n_remain <= chars@.len(),
    ensures
        chunk_seqs(r@) == greedy_chunks(chars@, n_remain as int, target as int, tolerance as int),
        chunks_chars(r@) == chars@,
        forall|i: int|
            0 <= i < r@.len() ==> (#[trigger] r@[i]).area == area && r@[i].chars@.len() > 0,
        r@.len() == 0 <==> chars@.len() == 0,
        r@.len() > 0 ==> r@[0].chars@.len() >= n_remain && r@[0].chars@.subrange(
            0,
            n_remain as int,
        ) == chars@.subrange(0, n_remain as int),
        forall|i: int|
            0 <= i < r@.len() - 1 ==> size_of((#[trigger] r@[i]).chars@) + tolerance >= target,
        (tolerance <= target && small_sizes(chars@, tolerance as int)) ==> forall|i: int|
            0 <= i < r@.len() && (i > 0 || n_remain == 0) ==> size_of(
                (#[trigger] r@[i]).chars@,
            ) <= target + tolerance,
{
    let limit: u128 = target as u128 + tolerance as u128;
    let lower: u128 = if tolerance >= target {
        0
    } else {
        (target - tolerance) as u128
    };
    let ghost cond = tolerance <= target && small_sizes(chars@, tolerance as int);
    let mut out: Vec<PlanGroup> = Vec::new();
    let mut cur: Vec<CharInfo> = Vec::new();
    let mut cur_size: u128 = 0;
    let mut i: usize = 0;
    while i < chars.len()
        invariant
            i <= chars@.len(),
            n_remain <= chars@.len(),
            limit == target + tolerance,
            lower == if tolerance >= target {
                0int
            } else {
                target - tolerance
            },
            cond == (tolerance <= target && small_sizes(chars@, tolerance as int)),
            chunks_chars(out@) + cur@ == chars@.take(i as int),
            cur_size == size_of(cur@),
            cur@.len() == 0 ==> i == 0 && out@.len() == 0,
            out@.len() > 0 ==> i >= n_remain,
            forall|q: int|
                0 <= q < out@.len() ==> (#[trigger] out@[q]).area == area
                    && out@[q].chars@.len() > 0,
            out@.len() == 0 ==> cur@ == chars@.take(i as int),
            out@.len() > 0 ==> out@[0].chars@.len() >= n_remain && out@[0].chars@.subrange(
                0,
                n_remain as int,
            ) == chars@.subrange(0, n_remain as int),
            forall|q: int|
                0 <= q < out@.len() ==> size_of((#[trigger] out@[q]).chars@) + tolerance
                    >= target,
            cond ==> forall|q: int|
                0 <= q < out@.len() && (q > 0 || n_remain == 0) ==> size_of(
                    (#[trigger] out@[q]).chars@,
                ) <= target + tolerance,
            cond ==> ((out@.len() > 0 || n_remain == 0) ==> cur_size <= target + tolerance),
            greedy_chunks(chars@, n_remain as int, target as int, tolerance as int)
                == chunk_seqs(out@) + greedy_rec(
                chars@,
                i as int,
                cur@,
                n_remain as int,
                target as int,
                tolerance as int,
            ),
        decreases chars@.len() - i,
    {
        let c = chars[i];
        proof {
            assert(chars@.take(i + 1).drop_last() =~= chars@.take(i as int));
            assert(chars@.take(i + 1).last() == chars@[i as int]);
            lemma_size_of_bound(cur@);
            assert(cur@.len() <= i) by {
                assert(chunks_chars(out@).len() + cur@.len() == i);
            }
            assert(cur@.len() * 0xFFFF_FFFF <= 0xFFFF_FFFF_FFFF_FFFFu64
                * 0xFFFF_FFFF) by (nonlinear_arith)
                requires
                    cur@.len() <= 0xFFFF_FFFF_FFFF_FFFFu64,
            ;
        }
        if cur.len() > 0 && i >= n_remain && cur_size >= lower && cur_size + c.size as u128
            > limit {
            proof {
                if out@.len() == 0 {
                    assert(cur@ == chars@.take(i as int));
                    assert(cur@.len() >= n_remain);
                    assert(cur@.subrange(0, n_remain as int) =~= chars@.subrange(
                        0,
                        n_remain as int,
                    ));
                }
            }
            let done = PlanGroup { area, chars: cur };
            proof {
                lemma_chunks_chars_push(out@, done);
            }
            out.push(done);
            proof {
                assert(chunk_seqs(out@) =~= chunk_seqs(out@.drop_last()).push(done.chars@));
            }
            cur = Vec::new();
            cur_size = 0;
        }
        let ghost prev = cur@;
        let ghost closed_now = cur@.len() == 0;
        cur.push(c);
        cur_size = cur_size + c.size as u128;
        proof {
            assert(cur@.drop_last() =~= prev);
            assert(cur@.last() == c);
            assert(size_of(cur@) == size_of(prev) + c.size);
            assert(chunks_chars(out@) + cur@ =~= chars@.take(i + 1));
            if out@.len() == 0 {
                assert(cur@ =~= chars@.take(i + 1));
            }
            if closed_now {
                assert(cur@ =~= seq![c]);
            } else {
                assert(cur@ =~= prev.push(c));
            }
            assert(greedy_chunks(chars@, n_remain as int, target as int, tolerance as int)
                =~= chunk_seqs(out@) + greedy_rec(
                chars@,
                i + 1,
                cur@,
                n_remain as int,
                target as int,
                tolerance as int,
            ));
        }
        i = i + 1;
    }
    proof {
        assert(chars@.take(chars@.len() as int) =~= chars@);
    }
    if cur.len() > 0 {
        let done = PlanGroup { area, chars: cur };
        proof {
            lemma_chunks_chars_push(out@, done);
        }
        out.push(done);
        proof {
            assert(chunks_chars(out@) =~= chars@);
            assert(chunk_seqs(out@) =~= chunk_seqs(out@.drop_last()).push(done.chars@));
            assert(chunk_seqs(out@) =~= greedy_chunks(
                chars@,
                n_remain as int,
                target as int,
                tolerance as int,
            ));
            if out@.len() == 1 {
                assert(out@[0].chars@ == chars@);
                assert(out@[0].chars@.subrange(0, n_remain as int) == chars@.subrange(
                    0,
                    n_remain as int,
                ));
            }
        }
    } else {
        proof {
            assert(chunks_chars(out@) + cur@ =~= chunks_chars(out@));
            assert(chunk_seqs(out@) + greedy_rec(
                chars@,
                chars@.len() as int,
                cur@,
                n_remain as int,
                target as int,
                tolerance as int,
            ) =~= chunk_seqs(out@));
        }
    }
    out
}

/// Does `s` hold at least one character of area `ar`?
pub open spec fn has_area_char(s: Seq<CharInfo>, ar: Area) -> bool {
    exists|q: int| 0 <= q < s.len() && area_of((#[trigger] s[q]).cp) == ar
}

/// Character `c` appears no later than the first chunk that holds any
/// character of `c`'s area. Together with the fact that `c` is itself a
/// character of that area, this places `c` in the first chunk of its area.
pub open spec fn guaranteed_first(p: Seq<PlanGroup>, c: CharInfo) -> bool {
    forall|j: int|
        0 <= j < p.len() && has_area_char((#[trigger] p[j]).chars@, area_of(c.cp)) ==> exists|
            k: int,
        |
            0 <= k <= j && (#[trigger] p[k]).chars@.contains(c)
}

/// Remain-characters law: if chunk `j` is the first chunk holding any
/// character of `c`'s area, a guaranteed character `c` lies in chunk `j`.
pub proof fn lemma_guaranteed_in_first(p: Seq<PlanGroup>, c: CharInfo, j: int)
    requires
        guaranteed_first(p, c),
        0 <= j < p.len(),
        has_area_char(p[j].chars@, area_of(c.cp)),
        forall|q: int| 0 <= q < j ==> !has_area_char((#[trigger] p[q]).chars@, area_of(c.cp)),
    ensures
        p[j].chars@.contains(c),
{
    let k = choose|k: int| 0 <= k <= j && (#[trigger] p[k]).chars@.contains(c);
    let q = choose|q: int| 0 <= q < p[k].chars@.len() && p[k].chars@[q] == c;
    assert(area_of(p[k].chars@[q].cp) == area_of(c.cp));
    assert(has_area_char(p[k].chars@, area_of(c.cp)));
    assert(k == j);
}

pub proof fn lemma_chunks_chars_concat(p: Seq<PlanGroup>, q: Seq<PlanGroup>)
    ensures
        chunks_chars(p + q) == chunks_chars(p) + chunks_chars(q),
    decreases q.len(),
{
    if q.len() == 0 {
        assert(p + q =~= p);
        assert(chunks_chars(p) + chunks_chars(q) =~= chunks_chars(p));
    } else {
        let q0 = q.drop_last();
        lemma_chunks_chars_concat(p, q0);
        assert((p + q).drop_last() =~= p + q0);
        assert((p + q).last() == q.last());
        assert(chunks_chars(p) + chunks_chars(q) =~= chunks_chars(p + q));
    }
}

proof fn lemma_chunks_chars_single(g: PlanGroup)
    ensures
        chunks_chars(seq![g]) == g.chars@,
{
    assert(seq![g].drop_last() =~= Seq::<PlanGroup>::empty());
    assert(chunks_chars(Seq::<PlanGroup>::empty()) == Seq::<CharInfo>::empty());
    assert(Seq::<CharInfo>::empty() + g.chars@ =~= g.chars@);
}

/// A plan of non-empty chunks has no more chunks than characters.
pub proof fn lemma_chunks_len_le_chars(p: Seq<PlanGroup>)
    requires
        forall|i: int| 0 <= i < p.len() ==> (#[trigger] p[i]).chars@.len() > 0,
    ensures
        p.len() <= chunks_chars(p).len(),
    decreases p.len(),
{
    if p.len() > 0 {
        lemma_chunks_len_le_chars(p.drop_last());
    }
}

/// Describes `t` as `s` with the adjacent chunks `j` and `j + 1` merged.
pub open spec fn is_merge_of(s: Seq<PlanGroup>, t: Seq<PlanGroup>, j: int) -> bool {
    &&& 0 <= j
    &&& j + 1 < s.len()
    &&& t.len() == s.len() - 1
    &&& forall|i: int| 0 <= i < j ==> t[i] == s[i]
    &&& t[j].area == s[j].area
    &&& t[j].chars@ == s[j].chars@ + s[j + 1].chars@
    &&& forall|i: int| j < i < t.len() ==> t[i] == s[i + 1]
}

/// Merging adjacent chunks keeps the planned character sequence intact.
pub proof fn lemma_merge_chunks_chars(s: Seq<PlanGroup>, t: Seq<PlanGroup>, j: int)
    requires
        is_merge_of(s, t, j),
    ensures
        chunks_chars(t) == chunks_chars(s),
{
    let a = s.subrange(0, j);
    let b = s.subrange(j + 2, s.len() as int);
    assert(s =~= a + seq![s[j]] + seq![s[j + 1]] + b);
    assert(t =~= a + seq![t[j]] + b);
    lemma_chunks_chars_concat(a, seq![s[j]]);
    lemma_chunks_chars_concat(a + seq![s[j]], seq![s[j + 1]]);
    lemma_chunks_chars_concat(a + seq![s[j]] + seq![s[j + 1]], b);
    lemma_chunks_chars_concat(a, seq![t[j]]);
    lemma_chunks_chars_concat(a + seq![t[j]], b);
    lemma_chunks_chars_single(s[j]);
    lemma_chunks_chars_single(s[j + 1]);
    lemma_chunks_chars_single(t[j]);
    assert(chunks_chars(t) =~= chunks_chars(s));
}

/// One index of the merged plan, mapped back to the original plan.
#[verifier::spinoff_prover]
#[verifier::rlimit(100)]
proof fn lemma_merge_guaranteed_at(s: Seq<PlanGroup>, t: Seq<PlanGroup>, j: int, c: CharInfo, jj: int)
    requires
        is_merge_of(s, t, j),
        guaranteed_first(s, c),
        0 <= jj < t.len(),
        has_area_char(t[jj].chars@, area_of(c.cp)),
    ensures
        exists|k: int| 0 <= k <= jj && (#[trigger] t[k]).chars@.contains(c),
{
    let ar = area_of(c.cp);
    let sj: int = if jj < j {
        assert(s[jj] == t[jj]);
        jj
    } else if jj == j {
        let q = choose|q: int| 0 <= q < t[j].chars@.len() && area_of((#[trigger] t[j].chars@[q]).cp) == ar;
        if q < s[j].chars@.len() {
            assert(s[j].chars@[q] == t[j].chars@[q]);
            j
        } else {
            assert(s[j + 1].chars@[q - s[j].chars@.len()] == t[j].chars@[q]);
            j + 1
        }
    } else {
        assert(s[jj + 1] == t[jj]);
        jj + 1
    };
    assert(has_area_char(s[sj].chars@, ar));
    assert(0 <= sj < s.len());
    let k0 = choose|k0: int| 0 <= k0 <= sj && (#[trigger] s[k0]).chars@.contains(c);
    if k0 < j {
        assert(t[k0] == s[k0]);
        assert(0 <= k0 <= jj && t[k0].chars@.contains(c));
    } else if k0 == j || k0 == j + 1 {
        let q = choose|q: int| 0 <= q < s[k0].chars@.len() && s[k0].chars@[q] == c;
        if k0 == j {
            assert(t[j].chars@[q] == c);
        } else {
            assert(t[j].chars@[s[j].chars@.len() + q] == c);
        }
        assert(jj >= j) by {
            if jj < j {
                assert(k0 <= sj < j);
            }
        }
        assert(0 <= j <= jj && t[j].chars@.contains(c));
    } else {
        assert(t[k0 - 1] == s[k0]);
        assert(0 <= k0 - 1 <= jj && t[k0 - 1].chars@.contains(c));
    }
}

/// Merging adjacent chunks keeps every guaranteed character in place.
pub proof fn lemma_merge_guaranteed(s: Seq<PlanGroup>, t: Seq<PlanGroup>, j: int, c: CharInfo)
    requires
        is_merge_of(s, t, j),
        guaranteed_first(s, c),
    ensures
        guaranteed_first(t, c),
{
    assert forall|jj: int|
        0 <= jj < t.len() && has_area_char((#[trigger] t[jj]).chars@, area_of(c.cp)) implies exists|
        k: int,
    | 0 <= k <= jj && (#[trigger] t[k]).chars@.contains(c) by {
        lemma_merge_guaranteed_at(s, t, j, c, jj);
    }
}

/// Total chunk count of the per-area chunk lists.
pub open spec fn total_len(bs: Seq<Vec<PlanGroup>>) -> int
    decreases bs.len(),
{
    if bs.len() == 0 {
        0
    } else {
        total_len(bs.drop_last()) + bs.last()@.len()
    }
}

/// The per-area chunk lists, concatenated in area order.
pub open spec fn flatten_bs(bs: Seq<Vec<PlanGroup>>) -> Seq<PlanGroup>
    decreases bs.len(),
{
    if bs.len() == 0 {
        Seq::empty()
    } else {
        flatten_bs(bs.drop_last()) + bs.last()@
    }
}

proof fn lemma_bs_push(bs: Seq<Vec<PlanGroup>>, v: Vec<PlanGroup>)
    ensures
        total_len(bs.push(v)) == total_len(bs) + v@.len(),
        flatten_bs(bs.push(v)) == flatten_bs(bs) + v@,
{
    assert(bs.push(v).drop_last() =~= bs);
    assert(bs.push(v).last() == v);
}

proof fn lemma_total_len_update(bs: Seq<Vec<PlanGroup>>, a: int, v: Vec<PlanGroup>)
    requires
        0 <= a < bs.len(),
    ensures
        total_len(bs.update(a, v)) == total_len(bs) - bs[a]@.len() + v@.len(),
    decreases bs.len(),
{
    if a == bs.len() - 1 {
        assert(bs.update(a, v).drop_last() =~= bs.drop_last());
        assert(bs.update(a, v).last() == v);
    } else {
        lemma_total_len_update(bs.drop_last(), a, v);
        assert(bs.update(a, v).drop_last() =~= bs.drop_last().update(a, v));
        assert(bs.update(a, v).last() == bs.last());
    }
}

proof fn lemma_flatten_chars(bs: Seq<Vec<PlanGroup>>, groups: Seq<AreaGroup>)
    requires
        bs.len() == groups.len(),
        forall|a: int|
            0 <= a < bs.len() ==> chunks_chars((#[trigger] bs[a])@) == groups[a].chars@,
    ensures
        chunks_chars(flatten_bs(bs)) == groups_chars(groups),
    decreases bs.len(),
{
    if bs.len() == 0 {
    } else {
        lemma_flatten_chars(bs.drop_last(), groups.drop_last());
        lemma_chunks_chars_concat(flatten_bs(bs.drop_last()), bs.last()@);
        assert(chunks_chars(flatten_bs(bs)) =~= groups_chars(groups));
    }
}

/// With untouched per-area chunk lists, the flat plan is exactly the
/// greedy plan.
proof fn lemma_flatten_greedy(
    bs: Seq<Vec<PlanGroup>>,
    gs: Seq<AreaGroup>,
    target: int,
    tolerance: int,
)
    requires
        bs.len() == gs.len(),
        forall|x: int|
            0 <= x < bs.len() ==> chunk_seqs((#[trigger] bs[x])@) == greedy_chunks(
                gs[x].chars@,
                gs[x].n_remain as int,
                target,
                tolerance,
            ),
    ensures
        chunk_seqs(flatten_bs(bs)) == greedy_plan(gs, target, tolerance),
    decreases bs.len(),
{
    if bs.len() > 0 {
        lemma_flatten_greedy(bs.drop_last(), gs.drop_last(), target, tolerance);
        assert(chunk_seqs(flatten_bs(bs)) =~= chunk_seqs(flatten_bs(bs.drop_last()))
            + chunk_seqs(bs.last()@));
        assert(chunk_seqs(flatten_bs(bs)) =~= greedy_plan(gs, target, tolerance));
    } else {
        assert(chunk_seqs(flatten_bs(bs)) =~= greedy_plan(gs, target, tolerance));
    }
}

/// When every area has collapsed to at most one chunk of non-empty
/// characters, the chunk count equals the number of non-empty areas.
proof fn lemma_total_eq_nonempty(bs: Seq<Vec<PlanGroup>>, groups: Seq<AreaGroup>)
    requires
        bs.len() == groups.len(),
        forall|a: int| 0 <= a < bs.len() ==> (#[trigger] bs[a])@.len() <= 1,
        forall|a: int|
            0 <= a < bs.len() ==> chunks_chars((#[trigger] bs[a])@) == groups[a].chars@,
        forall|a: int, k: int|
            0 <= a < bs.len() && 0 <= k < bs[a]@.len() ==> (#[trigger] bs[a]@[k]).chars@.len()
                > 0,
    ensures
        total_len(bs) == nonempty_count(groups),
    decreases bs.len(),
{
    if bs.len() > 0 {
        let a = bs.len() - 1;
        assert forall|q: int, k: int|
            0 <= q < bs.drop_last().len() && 0 <= k < bs.drop_last()[q]@.len() implies (
        #[trigger] bs.drop_last()[q]@[k]).chars@.len() > 0 by {
            assert(bs.drop_last()[q] == bs[q]);
        }
        lemma_total_eq_nonempty(bs.drop_last(), groups.drop_last());
        let col = bs[a];
        if col@.len() == 0 {
            assert(chunks_chars(col@) == Seq::<CharInfo>::empty());
            assert(groups[a].chars@.len() == 0);
        } else {
            assert(col@ =~= seq![col@[0]]);
            lemma_chunks_chars_single(col@[0]);
            assert(groups[a].chars@.len() > 0);
        }
    }
}

/// Executable size estimate of one chunk.
fn group_size(g: &PlanGroup) -> (s: u128)
    ensures
        s == size_of(g.chars@),
{
    let mut s: u128 = 0;
    let mut i: usize = 0;
    while i < g.chars.len()
        invariant
            i <= g.chars@.len(),
            s == size_of(g.chars@.take(i as int)),
        decreases g.chars@.len() - i,
    {
        proof {
            assert(g.chars@.take(i + 1).drop_last() =~= g.chars@.take(i as int));
            assert(g.chars@.take(i + 1).last() == g.chars@[i as int]);
            lemma_size_of_bound(g.chars@.take(i as int));
            assert(g.chars@.take(i as int).len() * 0xFFFF_FFFF <= 0xFFFF_FFFF_FFFF_FFFFu64
                * 0xFFFF_FFFF) by (nonlinear_arith)
                requires
                    g.chars@.take(i as int).len() <= 0xFFFF_FFFF_FFFF_FFFFu64,
            ;
        }
        s = s + g.chars[i].size as u128;
        i = i + 1;
    }
    proof {
        assert(g.chars@.take(g.chars@.len() as int) =~= g.chars@);
    }
    s
}

/// An upper bound on any chunk's estimated size, used to show that sums
/// of two estimates never overflow.
proof fn lemma_size_fits(v: &Vec<CharInfo>)
    ensures
        size_of(v@) < 0x2_0000_0000_0000_0000_0000_0000,
{
    vstd::std_specs::vec::axiom_spec_len(v);
    lemma_size_of_bound(v@);
    assert(v@.len() <= 0xFFFF_FFFF_FFFF_FFFFu64);
    assert(v@.len() * 0xFFFF_FFFF <= 0xFFFF_FFFF_FFFF_FFFFu64 * 0xFFFF_FFFF) by (nonlinear_arith)
        requires
            v@.len() <= 0xFFFF_FFFF_FFFF_FFFFu64,
    ;
}

/// Merges chunk `j + 1` into chunk `j`, keeping order and the left chunk's
/// area tag.
fn merge_at(chunks: &mut Vec<PlanGroup>, j: usize)
    requires
        j + 1 < old(chunks)@.len(),
    ensures
        is_merge_of(old(chunks)@, final(chunks)@, j as int),
{
    let ghost s0 = chunks@;
    let n = chunks.len();
    assert(j + 1 < n);
    let right = chunks.remove(j + 1);
    let left = chunks.remove(j);
    let area = left.area;
    let ghost lchars = left.chars@;
    let mut merged_chars = left.chars;
    let mut k: usize = 0;
    while k < right.chars.len()
        invariant
            k <= right.chars@.len(),
            merged_chars@ == lchars + right.chars@.take(k as int),
        decreases right.chars@.len() - k,
    {
        merged_chars.push(right.chars[k]);
        proof {
            assert(merged_chars@ =~= lchars + right.chars@.take(k + 1));
        }
        k = k + 1;
    }
    proof {
        assert(right.chars@.take(right.chars@.len() as int) =~= right.chars@);
    }
    let merged = PlanGroup { area, chars: merged_chars };
    chunks.insert(j, merged);
    proof {
        assert(chunks@.len() == s0.len() - 1);
        assert forall|i: int| 0 <= i < j implies chunks@[i] == s0[i] by {}
        assert(chunks@[j as int].area == s0[j as int].area);
        assert(chunks@[j as int].chars@ == s0[j as int].chars@ + s0[j + 1].chars@);
        assert forall|i: int| j < i < chunks@.len() implies chunks@[i] == s0[i + 1] by {}
    }
}

/// The combined size estimate of the adjacent pair at `q`.
pub open spec fn pair_size(p: Seq<PlanGroup>, q: int) -> int {
    size_of(p[q].chars@) + size_of(p[q + 1].chars@)
}

/// The combined size estimate of the adjacent same-area pair at `j` of
/// area list `a`.
pub open spec fn col_pair_size(bs: Seq<Vec<PlanGroup>>, a: int, j: int) -> int {
    size_of(bs[a]@[j].chars@) + size_of(bs[a]@[j + 1].chars@)
}

/// Finds the cheapest merge among adjacent same-area chunk pairs: the
/// pair with the smallest combined estimate, and on ties the earliest —
/// the lowest area rank, then the lowest chunk position.
#[verifier::spinoff_prover]
fn find_same_area_pair(bs: &Vec<Vec<PlanGroup>>) -> (r: Option<(usize, usize)>)
    ensures
        match r {
            Some(p) => {
                &&& p.0 < bs@.len()
                &&& p.1 + 1 < bs@[p.0 as int]@.len()
                &&& forall|a2: int, j2: int|
                    0 <= a2 < bs@.len() && 0 <= j2 < bs@[a2]@.len() - 1 ==> col_pair_size(
                        bs@,
                        p.0 as int,
                        p.1 as int,
                    ) <= #[trigger] col_pair_size(bs@, a2, j2)
                &&& forall|a2: int, j2: int|
                    0 <= a2 < bs@.len() && 0 <= j2 < bs@[a2]@.len() - 1 && #[trigger] col_pair_size(
                        bs@,
                        a2,
                        j2,
                    ) == col_pair_size(bs@, p.0 as int, p.1 as int) ==> (p.0 < a2 || (p.0 == a2
                        && p.1 <= j2))
            },
            None => forall|a: int| 0 <= a < bs@.len() ==> (#[trigger] bs@[a])@.len() <= 1,
        },
{
    let mut best: Option<(usize, usize)> = None;
    let mut best_size: u128 = 0;
    let mut a: usize = 0;
    while a < bs.len()
        invariant
            a <= bs@.len(),
            match best {
                Some(p) => {
                    &&& p.0 < a
                    &&& p.1 + 1 < bs@[p.0 as int]@.len()
                    &&& best_size == col_pair_size(bs@, p.0 as int, p.1 as int)
                    &&& forall|a2: int, j2: int|
                        0 <= a2 < a && 0 <= j2 < bs@[a2]@.len() - 1 ==> best_size
                            <= #[trigger] col_pair_size(bs@, a2, j2)
                    &&& forall|a2: int, j2: int|
                        0 <= a2 < a && 0 <= j2 < bs@[a2]@.len() - 1
                            && #[trigger] col_pair_size(bs@, a2, j2) == best_size ==> (p.0 < a2
                            || (p.0 == a2 && p.1 <= j2))
                },
                None => forall|q: int| 0 <= q < a ==> (#[trigger] bs@[q])@.len() <= 1,
            },
        decreases bs@.len() - a,
    {
        let col = &bs[a];
        if col.len() >= 2 {
            let mut jj: usize = 0;
            while jj < col.len() - 1
                invariant
                    jj + 1 <= col@.len(),
                    col@ == bs@[a as int]@,
                    a < bs@.len(),
                    col@.len() >= 2,
                    jj > 0 ==> best is Some,
                    match best {
                        Some(p) => {
                            &&& (p.0 < a || (p.0 == a && p.1 < jj))
                            &&& p.1 + 1 < bs@[p.0 as int]@.len()
                            &&& best_size == col_pair_size(bs@, p.0 as int, p.1 as int)
                            &&& forall|a2: int, j2: int|
                                0 <= a2 < a && 0 <= j2 < bs@[a2]@.len() - 1 ==> best_size
                                    <= #[trigger] col_pair_size(bs@, a2, j2)
                            &&& forall|j2: int|
                                0 <= j2 < jj ==> best_size <= #[trigger] col_pair_size(
                                    bs@,
                                    a as int,
                                    j2,
                                )
                            &&& forall|a2: int, j2: int|
                                0 <= a2 < a && 0 <= j2 < bs@[a2]@.len() - 1
                                    && #[trigger] col_pair_size(bs@, a2, j2) == best_size ==> (
                                p.0 < a2 || (p.0 == a2 && p.1 <= j2))
                            &&& forall|j2: int|
                                0 <= j2 < jj && #[trigger] col_pair_size(bs@, a as int, j2)
                                    == best_size ==> (p.0 < a || (p.0 == a && p.1 <= j2))
                        },
                        None => forall|q: int| 0 <= q < a ==> (#[trigger] bs@[q])@.len() <= 1,
                    },
                decreases col@.len() - jj,
            {
                proof {
                    lemma_size_fits(&col@[jj as int].chars);
                    lemma_size_fits(&col@[jj + 1].chars);
                }
                let sz = group_size(&col[jj]) + group_size(&col[jj + 1]);
                proof {
                    assert(sz == col_pair_size(bs@, a as int, jj as int));
                }
                match best {
                    None => {
                        best = Some((a, jj));
                        best_size = sz;
                    },
                    Some(_) => {
                        if sz < best_size {
                            best = Some((a, jj));
                            best_size = sz;
                        }
                    },
                }
                jj = jj + 1;
            }
        }
        a = a + 1;
    }
    best
}

/// Appending a chunk to a plan keeps a guaranteed character guaranteed,
/// provided the new chunk either holds the character itself or brings no
/// character of its area at all, or the character already sits in an
/// earlier chunk.
proof fn lemma_append_guaranteed(p: Seq<PlanGroup>, g: PlanGroup, c: CharInfo)
    requires
        guaranteed_first(p, c),
        has_area_char(g.chars@, area_of(c.cp)) ==> (g.chars@.contains(c) || exists|k: int|
            0 <= k < p.len() && (#[trigger] p[k]).chars@.contains(c)),
    ensures
        guaranteed_first(p.push(g), c),
{
    let t = p.push(g);
    let ar = area_of(c.cp);
    assert forall|j: int|
        0 <= j < t.len() && has_area_char((#[trigger] t[j]).chars@, ar) implies exists|k: int|
        0 <= k <= j && (#[trigger] t[k]).chars@.contains(c) by {
        if j < p.len() {
            assert(t[j] == p[j]);
            let k = choose|k: int| 0 <= k <= j && (#[trigger] p[k]).chars@.contains(c);
            assert(t[k] == p[k]);
            assert(0 <= k <= j && t[k].chars@.contains(c));
        } else {
            assert(t[j] == g);
            if g.chars@.contains(c) {
                assert(0 <= j <= j && t[j].chars@.contains(c));
            } else {
                let k = choose|k: int| 0 <= k < p.len() && (#[trigger] p[k]).chars@.contains(c);
                assert(t[k] == p[k]);
                assert(0 <= k <= j && t[k].chars@.contains(c));
            }
        }
    }
}

proof fn lemma_total_pos_exists(bs: Seq<Vec<PlanGroup>>)
    requires
        total_len(bs) > 0,
    ensures
        exists|a: int| 0 <= a < bs.len() && (#[trigger] bs[a])@.len() > 0,
    decreases bs.len(),
{
    if bs.len() > 0 {
        if bs.last()@.len() > 0 {
            assert(bs[bs.len() - 1]@.len() > 0);
        } else {
            lemma_total_pos_exists(bs.drop_last());
            let a = choose|a: int|
                0 <= a < bs.drop_last().len() && (#[trigger] bs.drop_last()[a])@.len() > 0;
            assert(bs[a]@.len() > 0);
        }
    }
}

/// One group's characters are no more numerous than all groups' together.
proof fn lemma_group_chars_le(gs: Seq<AreaGroup>, a: int)
    requires
        0 <= a < gs.len(),
    ensures
        gs[a].chars@.len() <= groups_chars(gs).len(),
    decreases gs.len(),
{
    if a < gs.len() - 1 {
        lemma_group_chars_le(gs.drop_last(), a);
    }
}

proof fn lemma_groups_prefix_le(gs: Seq<AreaGroup>, a: int)
    requires
        0 <= a <= gs.len(),
    ensures
        groups_chars(gs.take(a)).len() <= groups_chars(gs).len(),
    decreases gs.len(),
{
    if a == gs.len() {
        assert(gs.take(a) =~= gs);
    } else {
        assert(gs.drop_last().take(a) =~= gs.take(a));
        lemma_groups_prefix_le(gs.drop_last(), a);
    }
}

/// Some character's glyph estimate alone exceeds the window: no chunk can
/// hold it.
pub open spec fn has_oversize(gs: Seq<AreaGroup>, limit: int) -> bool {
    exists|a: int, q: int|
        0 <= a < gs.len() && 0 <= q < gs[a].chars@.len() && (#[trigger] gs[a].chars@[q]).size
            > limit
}

/// Exactly when the partitioner must give up: an oversized character, or a
/// chunk-count ceiling below what the area structure forces — the number
/// of non-empty areas without cross-area merging, one chunk in auto mode.
pub open spec fn plan_fails(
    gs: Seq<AreaGroup>,
    target: int,
    tolerance: int,
    max_chunks: int,
    auto: bool,
) -> bool {
    ||| has_oversize(gs, target + tolerance)
    ||| (if auto {
        groups_chars(gs).len() > 0 && max_chunks == 0
    } else {
        nonempty_count(gs) > max_chunks
    })
}

/// The flat plan has exactly as many chunks as the per-area lists.
proof fn lemma_flatten_len(bs: Seq<Vec<PlanGroup>>)
    ensures
        flatten_bs(bs).len() == total_len(bs),
    decreases bs.len(),
{
    if bs.len() > 0 {
        lemma_flatten_len(bs.drop_last());
    }
}

/// Every chunk of the flat plan comes from one of the per-area lists.
proof fn lemma_flatten_index(bs: Seq<Vec<PlanGroup>>, i: int)
    requires
        0 <= i < flatten_bs(bs).len(),
    ensures
        exists|b: int, kk: int|
            0 <= b < bs.len() && 0 <= kk < bs[b]@.len() && flatten_bs(bs)[i] == (
            #[trigger] bs[b]@[kk]),
    decreases bs.len(),
{
    if bs.len() > 0 {
        let base = flatten_bs(bs.drop_last()).len();
        if i < base {
            lemma_flatten_index(bs.drop_last(), i);
            let (b, kk) = choose|b: int, kk: int|
                0 <= b < bs.drop_last().len() && 0 <= kk < bs.drop_last()[b]@.len()
                    && flatten_bs(bs.drop_last())[i] == (#[trigger] bs.drop_last()[b]@[kk]);
            assert(flatten_bs(bs)[i] == bs[b]@[kk]);
        } else {
            let b = bs.len() - 1;
            let kk = i - base;
            assert(flatten_bs(bs)[i] == bs[b]@[kk]);
        }
    }
}

/// Appending chunks that hold no character of `c`'s area keeps `c`
/// guaranteed.
proof fn lemma_append_seq_guaranteed(p: Seq<PlanGroup>, q: Seq<PlanGroup>, c: CharInfo)
    requires
        guaranteed_first(p, c),
        forall|i: int|
            0 <= i < q.len() ==> !has_area_char((#[trigger] q[i]).chars@, area_of(c.cp)),
    ensures
        guaranteed_first(p + q, c),
{
    let t = p + q;
    let ar = area_of(c.cp);
    assert forall|j: int|
        0 <= j < t.len() && has_area_char((#[trigger] t[j]).chars@, ar) implies exists|k: int|
        0 <= k <= j && (#[trigger] t[k]).chars@.contains(c) by {
        if j < p.len() {
            assert(t[j] == p[j]);
            let k = choose|k: int| 0 <= k <= j && (#[trigger] p[k]).chars@.contains(c);
            assert(t[k] == p[k]);
            assert(0 <= k <= j && t[k].chars@.contains(c));
        } else {
            assert(t[j] == q[j - p.len()]);
            assert(false);
        }
    }
}

/// In the flat plan, every guaranteed character of an area appears no
/// later than the first chunk holding any character of its area.
proof fn lemma_flatten_guaranteed(
    bs: Seq<Vec<PlanGroup>>,
    groups: Seq<AreaGroup>,
    a: int,
    ci: int,
)
    requires
        bs.len() == groups.len(),
        bs.len() <= NUM_AREAS,
        forall|b: int, k: int, q: int|
            0 <= b < bs.len() && 0 <= k < bs[b]@.len() && 0 <= q < bs[b]@[k].chars@.len()
                ==> area_of((#[trigger] bs[b]@[k].chars@[q]).cp) == area_at_rank(b),
        forall|b: int, cj: int|
            0 <= b < bs.len() && bs[b]@.len() > 0 && 0 <= cj < groups[b].n_remain
                ==> bs[b]@[0].chars@.contains((#[trigger] groups[b].chars@[cj])),
        forall|b: int, q: int|
            0 <= b < bs.len() && 0 <= q < groups[b].chars@.len() ==> area_of(
                (#[trigger] groups[b].chars@[q]).cp,
            ) == area_at_rank(b),
        0 <= a < bs.len(),
        0 <= ci < groups[a].n_remain,
        bs[a]@.len() > 0,
    ensures
        guaranteed_first(flatten_bs(bs), groups[a].chars@[ci]),
    decreases bs.len(),
{
    let c = groups[a].chars@[ci];
    let ar = area_of(c.cp);
    assert(ar == area_at_rank(a));
    let t = flatten_bs(bs);
    let dl = bs.drop_last();
    let base = flatten_bs(dl).len() as int;
    if a == bs.len() - 1 {
        assert forall|j: int|
            0 <= j < t.len() && has_area_char((#[trigger] t[j]).chars@, ar) implies exists|
            k: int,
        | 0 <= k <= j && (#[trigger] t[k]).chars@.contains(c) by {
            if j < base {
                lemma_flatten_index(dl, j);
                let (b, kk) = choose|b: int, kk: int|
                    0 <= b < dl.len() && 0 <= kk < dl[b]@.len() && flatten_bs(dl)[j] == (
                    #[trigger] dl[b]@[kk]);
                assert(t[j] == dl[b]@[kk]);
                assert(dl[b] == bs[b]);
                let q = choose|q: int|
                    0 <= q < t[j].chars@.len() && area_of((#[trigger] t[j].chars@[q]).cp) == ar;
                assert(area_of(bs[b]@[kk].chars@[q].cp) == area_at_rank(b));
                lemma_rank_distinct(b, a);
                assert(false);
            } else {
                assert(t[base] == bs[a]@[0]);
                assert(t[base].chars@.contains(c));
                assert(0 <= base <= j);
            }
        }
    } else {
        assert(dl[a] == bs[a]);
        assert forall|b: int, k: int, q: int|
            0 <= b < dl.len() && 0 <= k < dl[b]@.len() && 0 <= q
                < dl[b]@[k].chars@.len() implies area_of((#[trigger] dl[b]@[k].chars@[q]).cp)
            == area_at_rank(b) by {
            assert(dl[b] == bs[b]);
        }
        assert forall|b: int, cj: int|
            0 <= b < dl.len() && dl[b]@.len() > 0 && 0 <= cj
                < groups.drop_last()[b].n_remain implies dl[b]@[0].chars@.contains(
            (#[trigger] groups.drop_last()[b].chars@[cj]),
        ) by {
            assert(dl[b] == bs[b]);
            assert(groups.drop_last()[b] == groups[b]);
        }
        assert forall|b: int, q: int|
            0 <= b < dl.len() && 0 <= q < groups.drop_last()[b].chars@.len() implies area_of(
            (#[trigger] groups.drop_last()[b].chars@[q]).cp,
        ) == area_at_rank(b) by {
            assert(groups.drop_last()[b] == groups[b]);
        }
        lemma_flatten_guaranteed(dl, groups.drop_last(), a, ci);
        assert(groups.drop_last()[a] == groups[a]);
        assert forall|i: int|
            0 <= i < bs.last()@.len() implies !has_area_char(
            (#[trigger] bs.last()@[i]).chars@,
            ar,
        ) by {
            if has_area_char(bs.last()@[i].chars@, ar) {
                let q = choose|q: int|
                    0 <= q < bs.last()@[i].chars@.len() && area_of(
                        (#[trigger] bs.last()@[i].chars@[q]).cp,
                    ) == ar;
                assert(bs[bs.len() - 1]@[i] == bs.last()@[i]);
                lemma_rank_distinct(bs.len() - 1, a);
                assert(false);
            }
        }
        lemma_append_seq_guaranteed(flatten_bs(dl), bs.last()@, c);
    }
}

/// Concatenates the per-area chunk lists into the flat plan, in area
/// order, carrying coverage and the remain-character guarantee.
fn flatten_areas(bs: Vec<Vec<PlanGroup>>, Ghost(groups): Ghost<Seq<AreaGroup>>) -> (all: Vec<
    PlanGroup,
>)
    requires
        bs@.len() == NUM_AREAS,
        groups.len() == NUM_AREAS,
        forall|a: int|
            0 <= a < NUM_AREAS ==> chunks_chars((#[trigger] bs@[a])@) == groups[a].chars@,
        forall|a: int, k: int|
            0 <= a < NUM_AREAS && 0 <= k < bs@[a]@.len() ==> (#[trigger] bs@[a]@[k]).chars@.len()
                > 0,
        forall|a: int, k: int, q: int|
            0 <= a < NUM_AREAS && 0 <= k < bs@[a]@.len() && 0 <= q < bs@[a]@[k].chars@.len()
                ==> area_of((#[trigger] bs@[a]@[k].chars@[q]).cp) == area_at_rank(a),
        forall|a: int, ci: int|
            0 <= a < NUM_AREAS && bs@[a]@.len() > 0 && 0 <= ci < groups[a].n_remain
                ==> bs@[a]@[0].chars@.contains((#[trigger] groups[a].chars@[ci])),
        forall|a: int|
            0 <= a < NUM_AREAS ==> (#[trigger] groups[a]).n_remain <= groups[a].chars@.len(),
        forall|a: int, q: int|
            0 <= a < NUM_AREAS && 0 <= q < groups[a].chars@.len() ==> area_of(
                (#[trigger] groups[a].chars@[q]).cp,
            ) == area_at_rank(a),
    ensures
        all@ == flatten_bs(bs@),
        chunks_chars(all@) == groups_chars(groups),
        all@.len() == total_len(bs@),
        forall|i: int| 0 <= i < all@.len() ==> (#[trigger] all@[i]).chars@.len() > 0,
        forall|a: int, ci: int|
            0 <= a < NUM_AREAS && 0 <= ci < groups[a].n_remain ==> guaranteed_first(
                all@,
                (#[trigger] groups[a].chars@[ci]),
            ),
{
    let ghost bs0 = bs@;
    let mut bs = bs;
    let mut all: Vec<PlanGroup> = Vec::new();
    while bs.len() > 0
        invariant
            bs@.len() <= bs0.len(),
            bs@ == bs0.subrange(bs0.len() - bs@.len(), bs0.len() as int),
            all@ == flatten_bs(bs0.take(bs0.len() - bs@.len())),
        decreases bs@.len(),
    {
        let ghost a = bs0.len() - bs@.len();
        let mut col = bs.remove(0);
        let ghost col0 = col@;
        proof {
            vstd::std_specs::vec::axiom_spec_len(&col);
            assert(col0 == bs0[a]@);
            assert(bs@ =~= bs0.subrange(bs0.len() - bs@.len(), bs0.len() as int));
        }
        let mut k: usize = 0;
        while col.len() > 0
            invariant
                k == col0.len() - col@.len(),
                col0.len() <= usize::MAX,
                col@ == col0.subrange(k as int, col0.len() as int),
                all@ == flatten_bs(bs0.take(a as int)) + col0.take(k as int),
                0 <= a <= bs0.len(),
            decreases col@.len(),
        {
            let ghost colprev = col@;
            let g = col.remove(0);
            proof {
                assert(g == colprev[0]);
                assert(g == col0[k as int]);
                assert(col@ =~= col0.subrange(k + 1, col0.len() as int));
            }
            all.push(g);
            proof {
                assert(all@ =~= flatten_bs(bs0.take(a as int)) + col0.take(k + 1));
            }
            k = k + 1;
        }
        proof {
            assert(col0.take(col0.len() as int) =~= col0);
            assert(bs0.take(a + 1).drop_last() =~= bs0.take(a as int));
            assert(bs0.take(a + 1).last() == bs0[a as int]);
            assert(all@ =~= flatten_bs(bs0.take(a + 1)));
        }
    }
    proof {
        assert(bs0.take(bs0.len() as int) =~= bs0);
        assert(all@ == flatten_bs(bs0));
        lemma_flatten_len(bs0);
        lemma_flatten_chars(bs0, groups);
        assert forall|i: int| 0 <= i < all@.len() implies (#[trigger] all@[i]).chars@.len()
            > 0 by {
            lemma_flatten_index(bs0, i);
        }
        assert forall|a: int, ci: int|
            0 <= a < NUM_AREAS && 0 <= ci < groups[a].n_remain implies guaranteed_first(
            all@,
            (#[trigger] groups[a].chars@[ci]),
        ) by {
            if bs0[a]@.len() == 0 {
                assert(chunks_chars(bs0[a]@) == groups[a].chars@);
                assert(groups[a].chars@.len() == 0);
            } else {
                lemma_flatten_guaranteed(bs0, groups, a, ci);
            }
        }
    }
    all
}

proof fn lemma_rank_distinct(r1: int, r2: int)
    requires
        0 <= r1 < NUM_AREAS,
        0 <= r2 < NUM_AREAS,
        r1 != r2,
    ensures
        area_at_rank(r1) != area_at_rank(r2),
{
}

/// Finds the cheapest adjacent pair of the flat plan: the pair with the
/// smallest combined estimate, the earliest on ties.
#[verifier::spinoff_prover]
fn find_smallest_adjacent(all: &Vec<PlanGroup>) -> (j: usize)
    requires
        all@.len() >= 2,
    ensures
        j + 1 < all@.len(),
        forall|q: int|
            0 <= q < all@.len() - 1 ==> pair_size(all@, j as int) <= #[trigger] pair_size(
                all@,
                q,
            ),
        forall|q: int|
            0 <= q < all@.len() - 1 && #[trigger] pair_size(all@, q) == pair_size(
                all@,
                j as int,
            ) ==> j <= q,
{
    proof {
        lemma_size_fits(&all@[0].chars);
        lemma_size_fits(&all@[1].chars);
    }
    let mut best_j: usize = 0;
    let mut best_size: u128 = group_size(&all[0]) + group_size(&all[1]);
    let mut j: usize = 1;
    while j < all.len() - 1
        invariant
            1 <= j,
            all@.len() >= 2,
            best_j < j,
            best_j + 1 < all@.len(),
            best_size == pair_size(all@, best_j as int),
            forall|q: int|
                0 <= q < j ==> best_size <= #[trigger] pair_size(all@, q),
            forall|q: int|
                0 <= q < j && #[trigger] pair_size(all@, q) == best_size ==> best_j <= q,
        decreases all@.len() - j,
    {
        proof {
            lemma_size_fits(&all@[j as int].chars);
            lemma_size_fits(&all@[j + 1].chars);
        }
        let sz = group_size(&all[j]) + group_size(&all[j + 1]);
        proof {
            assert(sz == pair_size(all@, j as int));
        }
        if sz < best_size {
            best_j = j;
            best_size = sz;
        }
        j = j + 1;
    }
    best_j
}


/// Effects of one within-area merge on the area's chunk list: coverage,
/// non-emptiness, purity and the remain-character placement all survive.
proof fn lemma_merge_col_props(
    s: Seq<PlanGroup>,
    t: Seq<PlanGroup>,
    j: int,
    gchars: Seq<CharInfo>,
    ar: Area,
    nrem: int,
)
    requires
        is_merge_of(s, t, j),
        chunks_chars(s) == gchars,
        forall|k: int| 0 <= k < s.len() ==> (#[trigger] s[k]).chars@.len() > 0,
        forall|k: int, q: int|
            0 <= k < s.len() && 0 <= q < s[k].chars@.len() ==> area_of(
                (#[trigger] s[k].chars@[q]).cp,
            ) == ar,
        forall|ci: int| 0 <= ci < nrem ==> s[0].chars@.contains(#[trigger] gchars[ci]),
    ensures
        chunks_chars(t) == gchars,
        forall|k: int| 0 <= k < t.len() ==> (#[trigger] t[k]).chars@.len() > 0,
        forall|k: int, q: int|
            0 <= k < t.len() && 0 <= q < t[k].chars@.len() ==> area_of(
                (#[trigger] t[k].chars@[q]).cp,
            ) == ar,
        forall|ci: int| 0 <= ci < nrem ==> t[0].chars@.contains(#[trigger] gchars[ci]),
{
    lemma_merge_chunks_chars(s, t, j);
    assert forall|k: int, q: int|
        0 <= k < t.len() && 0 <= q < t[k].chars@.len() implies area_of(
        (#[trigger] t[k].chars@[q]).cp,
    ) == ar by {
        if k < j {
            assert(t[k] == s[k]);
        } else if k == j {
            if q < s[j].chars@.len() {
                assert(t[k].chars@[q] == s[j].chars@[q]);
            } else {
                assert(t[k].chars@[q] == s[j + 1].chars@[q - s[j].chars@.len()]);
            }
        } else {
            assert(t[k] == s[k + 1]);
        }
    }
    assert forall|k: int| 0 <= k < t.len() implies (#[trigger] t[k]).chars@.len() > 0 by {
        if k < j {
            assert(t[k] == s[k]);
        } else if k > j {
            assert(t[k] == s[k + 1]);
        }
    }
    assert forall|ci: int| 0 <= ci < nrem implies t[0].chars@.contains(
        #[trigger] gchars[ci],
    ) by {
        if j == 0 {
            let idx = choose|idx: int|
                0 <= idx < s[0].chars@.len() && s[0].chars@[idx] == gchars[ci];
            assert(t[0].chars@[idx] == gchars[ci]);
        } else {
            assert(t[0] == s[0]);
        }
    }
}

/// The partitioner: plans each area greedily, then merges smallest
/// adjacent chunks — within one area first, across areas only in
/// auto-subset mode — until at most `max_chunks` chunks remain.
///
/// On success the plan covers the groups' characters exactly, in order,
/// in non-empty chunks, no more than `max_chunks` of them, and every
/// guaranteed character sits no later than the first chunk of its area.
/// It fails, with `PlanUnsatisfiable`, exactly when one character's
/// estimate exceeds `target + tolerance`, or the ceiling is below the
/// number of non-empty areas (below one chunk in auto-subset mode).
#[verifier::rlimit(100)]
#[verifier::spinoff_prover]
pub fn plan(
    groups: &Vec<AreaGroup>,
    target: u64,
    tolerance: u64,
    max_chunks: usize,
    auto: bool,
) -> (r: Result<Vec<PlanGroup>, SubsetError>)
    requires
        groups@.len() == NUM_AREAS,
        forall|a: int|
            0 <= a < NUM_AREAS ==> (#[trigger] groups@[a]).n_remain <= groups@[a].chars@.len(),
        forall|a: int, q: int|
            0 <= a < NUM_AREAS && 0 <= q < groups@[a].chars@.len() ==> area_of(
                (#[trigger] groups@[a].chars@[q]).cp,
            ) == area_at_rank(a),
        groups_chars(groups@).len() <= usize::MAX,
    ensures
        match r {
            Ok(p) => {
                &&& chunks_chars(p@) == groups_chars(groups@)
                &&& p@.len() <= max_chunks
                &&& forall|i: int| 0 <= i < p@.len() ==> (#[trigger] p@[i]).chars@.len() > 0
                &&& forall|a: int, ci: int|
                    0 <= a < NUM_AREAS && 0 <= ci < groups@[a].n_remain ==> guaranteed_first(
                        p@,
                        (#[trigger] groups@[a].chars@[ci]),
                    )
                &&& (greedy_plan(groups@, target as int, tolerance as int).len() <= max_chunks
                    ==> chunk_seqs(p@) == greedy_plan(groups@, target as int, tolerance as int))
                &&& !plan_fails(
                    groups@,
                    target as int,
                    tolerance as int,
                    max_chunks as int,
                    auto,
                )
            },
            Err(e) => e == SubsetError::PlanUnsatisfiable && plan_fails(
                groups@,
                target as int,
                tolerance as int,
                max_chunks as int,
                auto,
            ),
        },
{
    let limit: u128 = target as u128 + tolerance as u128;
    // reject characters whose estimate no chunk can hold
    let mut a: usize = 0;
    while a < groups.len()
        invariant
            a <= NUM_AREAS,
            groups@.len() == NUM_AREAS,
            limit == target + tolerance,
            forall|x: int, q: int|
                0 <= x < a && 0 <= q < groups@[x].chars@.len() ==> (
                #[trigger] groups@[x].chars@[q]).size <= target + tolerance,
        decreases NUM_AREAS - a,
    {
        let g = &groups[a];
        let mut q: usize = 0;
        while q < g.chars.len()
            invariant
                q <= g.chars@.len(),
                a < NUM_AREAS,
                groups@.len() == NUM_AREAS,
                g == groups@[a as int],
                limit == target + tolerance,
                forall|qq: int|
                    0 <= qq < q ==> (#[trigger] g.chars@[qq]).size <= target + tolerance,
            decreases g.chars@.len() - q,
        {
            if g.chars[q].size as u128 > limit {
                proof {
                    assert(groups@[a as int].chars@[q as int].size > target + tolerance);
                    assert(has_oversize(groups@, target + tolerance));
                }
                return Err(SubsetError::PlanUnsatisfiable);
            }
            q = q + 1;
        }
        a = a + 1;
    }
    // count the non-empty areas and the characters
    let mut cnt: usize = 0;
    let mut tc: usize = 0;
    let mut a: usize = 0;
    while a < groups.len()
        invariant
            a <= NUM_AREAS,
            groups@.len() == NUM_AREAS,
            groups_chars(groups@).len() <= usize::MAX,
            cnt == nonempty_count(groups@.take(a as int)),
            tc == groups_chars(groups@.take(a as int)).len(),
            cnt <= a,
        decreases NUM_AREAS - a,
    {
        proof {
            assert(groups@.take(a + 1).drop_last() =~= groups@.take(a as int));
            assert(groups@.take(a + 1).last() == groups@[a as int]);
            lemma_groups_prefix_le(groups@, a + 1);
        }
        if groups[a].chars.len() > 0 {
            cnt = cnt + 1;
        }
        tc = tc + groups[a].chars.len();
        a = a + 1;
    }
    proof {
        assert(groups@.take(groups@.len() as int) =~= groups@);
    }
    if !auto && cnt > max_chunks {
        return Err(SubsetError::PlanUnsatisfiable);
    }
    if auto && max_chunks == 0 && tc > 0 {
        return Err(SubsetError::PlanUnsatisfiable);
    }
    // greedy per-area chunking
    let mut bs: Vec<Vec<PlanGroup>> = Vec::new();
    let mut total: usize = 0;
    let mut a: usize = 0;
    while a < groups.len()
        invariant
            a <= NUM_AREAS,
            groups@.len() == NUM_AREAS,
            groups_chars(groups@).len() <= usize::MAX,
            forall|x: int|
                0 <= x < NUM_AREAS ==> (#[trigger] groups@[x]).n_remain
                    <= groups@[x].chars@.len(),
            forall|x: int, q: int|
                0 <= x < NUM_AREAS && 0 <= q < groups@[x].chars@.len() ==> area_of(
                    (#[trigger] groups@[x].chars@[q]).cp,
                ) == area_at_rank(x),
            bs@.len() == a,
            total == total_len(bs@),
            total_len(bs@) <= groups_chars(groups@.take(a as int)).len(),
            total_len(bs@) == greedy_plan(
                groups@.take(a as int),
                target as int,
                tolerance as int,
            ).len(),
            forall|x: int|
                0 <= x < a ==> chunk_seqs((#[trigger] bs@[x])@) == greedy_chunks(
                    groups@[x].chars@,
                    groups@[x].n_remain as int,
                    target as int,
                    tolerance as int,
                ),
            forall|x: int|
                0 <= x < a ==> chunks_chars((#[trigger] bs@[x])@) == groups@[x].chars@,
            forall|x: int, k: int|
                0 <= x < a && 0 <= k < bs@[x]@.len() ==> (#[trigger] bs@[x]@[k]).chars@.len()
                    > 0,
            forall|x: int, k: int, q: int|
                0 <= x < a && 0 <= k < bs@[x]@.len() && 0 <= q < bs@[x]@[k].chars@.len()
                    ==> area_of((#[trigger] bs@[x]@[k].chars@[q]).cp) == area_at_rank(x),
            forall|x: int, ci: int|
                0 <= x < a && bs@[x]@.len() > 0 && 0 <= ci < groups@[x].n_remain
                    ==> bs@[x]@[0].chars@.contains((#[trigger] groups@[x].chars@[ci])),
        decreases NUM_AREAS - a,
    {
        let g = &groups[a];
        let col = plan_area(g.area, &g.chars, g.n_remain, target, tolerance);
        proof {
            assert(groups@.take(a + 1).drop_last() =~= groups@.take(a as int));
            assert(groups@.take(a + 1).last() == groups@[a as int]);
            lemma_groups_prefix_le(groups@, a + 1);
            lemma_chunks_len_le_chars(col@);
            assert forall|k: int, q: int|
                0 <= k < col@.len() && 0 <= q < col@[k].chars@.len() implies area_of(
                (#[trigger] col@[k].chars@[q]).cp,
            ) == area_at_rank(a as int) by {
                lemma_chunks_chars_member(col@, k, q);
                let c = col@[k].chars@[q];
                let idx = choose|idx: int|
                    0 <= idx < g.chars@.len() && g.chars@[idx] == c;
                assert(area_of(g.chars@[idx].cp) == area_at_rank(a as int));
            }
            assert forall|ci: int|
                col@.len() > 0 && 0 <= ci < g.n_remain implies col@[0].chars@.contains(
                (#[trigger] g.chars@[ci]),
            ) by {
                assert(col@[0].chars@.subrange(0, g.n_remain as int) == g.chars@.subrange(
                    0,
                    g.n_remain as int,
                ));
                assert(col@[0].chars@[ci] == col@[0].chars@.subrange(0, g.n_remain as int)[ci]);
                assert(col@[0].chars@[ci] == g.chars@[ci]);
            }
            lemma_bs_push(bs@, col);
            assert(greedy_plan(groups@.take(a + 1), target as int, tolerance as int)
                == greedy_plan(groups@.take(a as int), target as int, tolerance as int)
                + greedy_chunks(
                groups@[a as int].chars@,
                groups@[a as int].n_remain as int,
                target as int,
                tolerance as int,
            ));
        }
        total = total + col.len();
        bs.push(col);
        a = a + 1;
    }
    proof {
        assert(groups@.take(groups@.len() as int) =~= groups@);
    }
    // merge within areas, cheapest pair first
    let ghost bs_init = bs@;
    let ghost total_init = total as int;
    let mut none_found = false;
    while total > max_chunks && !none_found
        invariant
            groups@.len() == NUM_AREAS,
            bs@.len() == NUM_AREAS,
            total == total_len(bs@),
            total_init == total_len(bs_init),
            total <= total_init,
            total_init <= max_chunks ==> bs@ == bs_init,
            forall|x: int|
                0 <= x < NUM_AREAS ==> chunks_chars((#[trigger] bs@[x])@) == groups@[x].chars@,
            forall|x: int, k: int|
                0 <= x < NUM_AREAS && 0 <= k < bs@[x]@.len() ==> (
                #[trigger] bs@[x]@[k]).chars@.len() > 0,
            forall|x: int, k: int, q: int|
                0 <= x < NUM_AREAS && 0 <= k < bs@[x]@.len() && 0 <= q
                    < bs@[x]@[k].chars@.len() ==> area_of(
                    (#[trigger] bs@[x]@[k].chars@[q]).cp,
                ) == area_at_rank(x),
            forall|x: int, ci: int|
                0 <= x < NUM_AREAS && bs@[x]@.len() > 0 && 0 <= ci < groups@[x].n_remain
                    ==> bs@[x]@[0].chars@.contains((#[trigger] groups@[x].chars@[ci])),
            none_found ==> forall|x: int|
                0 <= x < NUM_AREAS ==> (#[trigger] bs@[x])@.len() <= 1,
        decreases total, (if none_found { 0int } else { 1int }),
    {
        match find_same_area_pair(&bs) {
            None => {
                none_found = true;
            },
            Some(pair) => {
                let (aa, j) = pair;
                let ghost bs_old = bs@;
                let mut col = bs.remove(aa);
                let ghost colv = col@;
                merge_at(&mut col, j);
                bs.insert(aa, col);
                proof {
                    assert(bs@ =~= bs_old.update(aa as int, col));
                    lemma_total_len_update(bs_old, aa as int, col);
                    lemma_merge_col_props(
                        colv,
                        col@,
                        j as int,
                        groups@[aa as int].chars@,
                        area_at_rank(aa as int),
                        groups@[aa as int].n_remain as int,
                    );
                }
                total = total - 1;
            },
        }
    }
    if total <= max_chunks {
        proof {
            assert(groups@.take(groups@.len() as int) =~= groups@);
            assert(total_init == greedy_plan(groups@, target as int, tolerance as int).len());
        }
        let ghost bs_here = bs@;
        let all = flatten_areas(bs, Ghost(groups@));
        proof {
            if auto && max_chunks == 0 {
                assert(all@.len() == 0);
                assert(chunks_chars(all@) == Seq::<CharInfo>::empty());
                assert(groups_chars(groups@).len() == 0);
            }
            if greedy_plan(groups@, target as int, tolerance as int).len() <= max_chunks {
                assert(bs_here == bs_init);
                lemma_flatten_greedy(bs_init, groups@, target as int, tolerance as int);
                assert(chunk_seqs(all@) == greedy_plan(
                    groups@,
                    target as int,
                    tolerance as int,
                ));
            }
        }
        return Ok(all);
    }
    proof {
        assert(groups@.take(groups@.len() as int) =~= groups@);
        assert(greedy_plan(groups@, target as int, tolerance as int).len() == total_init);
        assert(greedy_plan(groups@, target as int, tolerance as int).len() > max_chunks);
    }
    // every area is down to one chunk
    proof {
        lemma_total_eq_nonempty(bs@, groups@);
    }
    if !auto {
        proof {
            assert(false);
        }
        return Err(SubsetError::PlanUnsatisfiable);
    }
    proof {
        if max_chunks == 0 {
            lemma_total_pos_exists(bs@);
            let aa = choose|aa: int| 0 <= aa < bs@.len() && (#[trigger] bs@[aa])@.len() > 0;
            assert(bs@[aa]@[0].chars@.len() > 0);
            lemma_chunks_chars_member(bs@[aa]@, 0, 0);
            assert(groups@[aa].chars@.len() > 0);
            lemma_group_chars_le(groups@, aa);
            assert(false);
        }
    }
    // merge across areas, cheapest pair first
    let mut all = flatten_areas(bs, Ghost(groups@));
    while all.len() > max_chunks
        invariant
            max_chunks >= 1,
            chunks_chars(all@) == groups_chars(groups@),
            forall|i: int| 0 <= i < all@.len() ==> (#[trigger] all@[i]).chars@.len() > 0,
            forall|x: int, ci: int|
                0 <= x < NUM_AREAS && 0 <= ci < groups@[x].n_remain ==> guaranteed_first(
                    all@,
                    (#[trigger] groups@[x].chars@[ci]),
                ),
        decreases all@.len(),
    {
        let j = find_smallest_adjacent(&all);
        let ghost prev = all@;
        merge_at(&mut all, j);
        proof {
            lemma_merge_chunks_chars(prev, all@, j as int);
            assert forall|i: int| 0 <= i < all@.len() implies (#[trigger] all@[i]).chars@.len()
                > 0 by {
                if i < j {
                    assert(all@[i] == prev[i]);
                } else if i > j {
                    assert(all@[i] == prev[i + 1]);
                }
            }
            assert forall|x: int, ci: int|
                0 <= x < NUM_AREAS && 0 <= ci < groups@[x].n_remain implies guaranteed_first(
                all@,
                (#[trigger] groups@[x].chars@[ci]),
            ) by {
                lemma_merge_guaranteed(prev, all@, j as int, groups@[x].chars@[ci]);
            }
        }
    }
    Ok(all)
}

} // verus!
