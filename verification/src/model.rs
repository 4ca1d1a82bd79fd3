//! Shared data model of the planner: characters with size estimates,
//! per-area character groups, and planned chunks, together with the
//! sequence-level spec functions and lemmas the contracts are stated over.

use vstd::prelude::*;
use vstd::seq_lib::lemma_multiset_commutative;
use vstd::multiset::Multiset;
use crate::classify::{Area, area_of, area_at_rank, area_from_rank, classify, NUM_AREAS};

verus! {

/// One character of the repertoire: a Unicode scalar value together with
/// the estimated number of bytes its glyph record contributes to a subset
/// binary. The estimate is monotonic: a chunk's estimated size is the sum
/// of its characters' sizes.
#[derive(Clone, Copy, PartialEq, Eq, Structural, Debug)]
pub struct CharInfo {
    pub cp: u32,
    pub size: u32,
}

/// The characters of one language area, in repertoire order. The first
/// `n_remain` entries are the caller's guaranteed characters: they are
/// placed in the area's first chunk and never dropped.
#[derive(Debug)]
pub struct AreaGroup {
    pub area: Area,
    pub chars: Vec<CharInfo>,
    pub n_remain: usize,
}

/// One planned chunk: an ordered character group destined to become one
/// subset artifact, tagged with the area it was opened for.
#[derive(Debug)]
pub struct PlanGroup {
    pub area: Area,
    pub chars: Vec<CharInfo>,
}

/// The characters of `s` that belong to area `a`, in order.
pub open spec fn filter_area(s: Seq<CharInfo>, a: Area) -> Seq<CharInfo>
    decreases s.len(),
{
    if s.len() == 0 {
        Seq::empty()
    } else {
        filter_area(s.drop_last(), a) + if area_of(s.last().cp) == a {
            seq![s.last()]
        } else {
            Seq::empty()
        }
    }
}

/// Sum of the size estimates of a character sequence.
pub open spec fn size_of(s: Seq<CharInfo>) -> int
    decreases s.len(),
{
    if s.len() == 0 {
        0
    } else {
        size_of(s.drop_last()) + s.last().size
    }
}

/// All characters of a chunk sequence, concatenated in plan order.
pub open spec fn chunks_chars(p: Seq<PlanGroup>) -> Seq<CharInfo>
    decreases p.len(),
{
    if p.len() == 0 {
        Seq::empty()
    } else {
        chunks_chars(p.drop_last()) + p.last().chars@
    }
}

/// All characters of an area-group sequence, concatenated in area order.
pub open spec fn groups_chars(gs: Seq<AreaGroup>) -> Seq<CharInfo>
    decreases gs.len(),
{
    if gs.len() == 0 {
        Seq::empty()
    } else {
        groups_chars(gs.drop_last()) + gs.last().chars@
    }
}

/// Number of area groups that hold at least one character.
pub open spec fn nonempty_count(gs: Seq<AreaGroup>) -> int
    decreases gs.len(),
{
    if gs.len() == 0 {
        0
    } else {
        nonempty_count(gs.drop_last()) + if gs.last().chars@.len() > 0 {
            1int
        } else {
            0int
        }
    }
}

pub proof fn lemma_filter_area_push(s: Seq<CharInfo>, c: CharInfo, a: Area)
    ensures
        filter_area(s.push(c), a) == filter_area(s, a) + if area_of(c.cp) == a {
            seq![c]
        } else {
            Seq::<CharInfo>::empty()
        },
{
    assert(s.push(c).drop_last() =~= s);
    assert(s.push(c).last() == c);
}

/// Membership in a filtered sequence: exactly the characters of the area.
pub proof fn lemma_filter_area_members(s: Seq<CharInfo>, a: Area)
    ensures
        forall|i: int|
            0 <= i < filter_area(s, a).len() ==> area_of(
                #[trigger] filter_area(s, a)[i].cp,
            ) == a && s.contains(filter_area(s, a)[i]),
        forall|c: CharInfo| s.contains(c) && area_of(c.cp) == a ==> filter_area(s, a).contains(c),
    decreases s.len(),
{
    if s.len() == 0 {
    } else {
        let s0 = s.drop_last();
        lemma_filter_area_members(s0, a);
        assert(forall|c: CharInfo| s0.contains(c) ==> s.contains(c));
        assert forall|c: CharInfo| s.contains(c) && area_of(c.cp) == a implies filter_area(
            s,
            a,
        ).contains(c) by {
            if c == s.last() {
                let f = filter_area(s, a);
                assert(f[f.len() - 1] == c);
            } else {
                let j = choose|j: int| 0 <= j < s.len() && s[j] == c;
                assert(s0[j] == c);
                assert(s0.contains(c));
                let f0 = filter_area(s0, a);
                let k = choose|k: int| 0 <= k < f0.len() && f0[k] == c;
                assert(filter_area(s, a)[k] == c);
            }
        }
    }
}

/// The classified repertoire: the area filters of `s`, concatenated in
/// canonical area order.
pub open spec fn classified(s: Seq<CharInfo>) -> Seq<CharInfo> {
    filter_area(s, area_at_rank(0)) + filter_area(s, area_at_rank(1)) + filter_area(
        s,
        area_at_rank(2),
    ) + filter_area(s, area_at_rank(3)) + filter_area(s, area_at_rank(4)) + filter_area(
        s,
        area_at_rank(5),
    ) + filter_area(s, area_at_rank(6)) + filter_area(s, area_at_rank(7)) + filter_area(
        s,
        area_at_rank(8),
    )
}

/// Classification neither loses nor duplicates characters: the classified
/// repertoire is a permutation of the input.
pub proof fn lemma_classified_permutation(s: Seq<CharInfo>)
    ensures
        classified(s).to_multiset() == s.to_multiset(),
    decreases s.len(),
{
    broadcast use vstd::seq_lib::group_to_multiset_ensures;

    if s.len() == 0 {
        assert(classified(s) =~= Seq::<CharInfo>::empty());
        assert(classified(s).to_multiset() =~= s.to_multiset());
    } else {
        let s0 = s.drop_last();
        let c = s.last();
        lemma_classified_permutation(s0);
        assert(s =~= s0.push(c));
        assert(s.to_multiset() == s0.to_multiset().insert(c));
        lemma_classified_step(s0, c);
        assert(classified(s0.push(c)).to_multiset() == classified(s0).to_multiset().insert(c));
    }
}

proof fn lemma_cat_multiset(x: Seq<CharInfo>, y: Seq<CharInfo>)
    ensures
        (x + y).to_multiset() == x.to_multiset().add(y.to_multiset()),
{
    lemma_multiset_commutative(x, y);
}

/// Appending one character to the repertoire inserts exactly that
/// character into the classified multiset.
#[verifier::rlimit(100)]
proof fn lemma_classified_step(s: Seq<CharInfo>, c: CharInfo)
    ensures
        classified(s.push(c)).to_multiset() == classified(s).to_multiset().insert(c),
{
    broadcast use vstd::seq_lib::group_to_multiset_ensures;

    let a = area_of(c.cp);
    assert forall|r: int| 0 <= r < NUM_AREAS implies filter_area(s.push(c), area_at_rank(r))
        == filter_area(s, area_at_rank(r)) + (if area_at_rank(r) == a {
        seq![c]
    } else {
        Seq::<CharInfo>::empty()
    }) by {
        lemma_filter_area_push(s, c, area_at_rank(r));
    }
    crate::classify::lemma_every_area_has_rank(a);
    let ra = choose|r: int| 0 <= r < NUM_AREAS && area_at_rank(r) == a;
    let f = |r: int| filter_area(s, area_at_rank(r));
    let g = |r: int| filter_area(s.push(c), area_at_rank(r));
    assert forall|r: int| 0 <= r < NUM_AREAS && r != ra implies #[trigger] g(r).to_multiset() == f(
        r,
    ).to_multiset() by {
        assert(area_at_rank(r) != a) by {
            if area_at_rank(r) == a {
                lemma_rank_injective(r, ra);
            }
        }
        assert(g(r) == f(r) + Seq::<CharInfo>::empty());
        assert(f(r) + Seq::<CharInfo>::empty() =~= f(r));
    }
    assert(g(ra).to_multiset() == f(ra).to_multiset().insert(c)) by {
        assert(g(ra) == f(ra) + seq![c]);
        lemma_cat_multiset(f(ra), seq![c]);
        assert(seq![c].to_multiset() == Seq::<CharInfo>::empty().to_multiset().insert(c)) by {
            assert(seq![c] =~= Seq::<CharInfo>::empty().push(c));
        }
        assert(f(ra).to_multiset().add(Multiset::<CharInfo>::empty().insert(c)) =~= f(
            ra,
        ).to_multiset().insert(c));
    }
    lemma_cat9(g(0), g(1), g(2), g(3), g(4), g(5), g(6), g(7), g(8));
    lemma_cat9(f(0), f(1), f(2), f(3), f(4), f(5), f(6), f(7), f(8));
    assert(classified(s.push(c)).to_multiset() =~= classified(s).to_multiset().insert(c));
}

proof fn lemma_rank_injective(r1: int, r2: int)
    requires
        0 <= r1 < NUM_AREAS,
        0 <= r2 < NUM_AREAS,
        area_at_rank(r1) == area_at_rank(r2),
    ensures
        r1 == r2,
{
}

proof fn lemma_cat9(
    x0: Seq<CharInfo>,
    x1: Seq<CharInfo>,
    x2: Seq<CharInfo>,
    x3: Seq<CharInfo>,
    x4: Seq<CharInfo>,
    x5: Seq<CharInfo>,
    x6: Seq<CharInfo>,
    x7: Seq<CharInfo>,
    x8: Seq<CharInfo>,
)
    ensures
        (x0 + x1 + x2 + x3 + x4 + x5 + x6 + x7 + x8).to_multiset() == x0.to_multiset().add(
            x1.to_multiset(),
        ).add(x2.to_multiset()).add(x3.to_multiset()).add(x4.to_multiset()).add(
            x5.to_multiset(),
        ).add(x6.to_multiset()).add(x7.to_multiset()).add(x8.to_multiset()),
{
    lemma_cat_multiset(x0, x1);
    lemma_cat_multiset(x0 + x1, x2);
    lemma_cat_multiset(x0 + x1 + x2, x3);
    lemma_cat_multiset(x0 + x1 + x2 + x3, x4);
    lemma_cat_multiset(x0 + x1 + x2 + x3 + x4, x5);
    lemma_cat_multiset(x0 + x1 + x2 + x3 + x4 + x5, x6);
    lemma_cat_multiset(x0 + x1 + x2 + x3 + x4 + x5 + x6, x7);
    lemma_cat_multiset(x0 + x1 + x2 + x3 + x4 + x5 + x6 + x7, x8);
}

/// A character sequence's total estimated size is bounded by its length
/// times the largest single estimate.
pub proof fn lemma_size_of_bound(s: Seq<CharInfo>)
    ensures
        size_of(s) <= s.len() * 0xFFFF_FFFF,
    decreases s.len(),
{
    if s.len() > 0 {
        lemma_size_of_bound(s.drop_last());
        assert(s.last().size <= 0xFFFF_FFFFu32);
        assert((s.len() - 1) * 0xFFFF_FFFF + 0xFFFF_FFFF == s.len() * 0xFFFF_FFFF) by (
        nonlinear_arith);
    }
}

pub proof fn lemma_chunks_chars_push(p: Seq<PlanGroup>, g: PlanGroup)
    ensures
        chunks_chars(p.push(g)) == chunks_chars(p) + g.chars@,
{
    assert(p.push(g).drop_last() =~= p);
    assert(p.push(g).last() == g);
}

/// Every chunk's characters occur inside the concatenation of the plan.
pub proof fn lemma_chunks_chars_member(p: Seq<PlanGroup>, i: int, j: int)
    requires
        0 <= i < p.len(),
        0 <= j < p[i].chars@.len(),
    ensures
        chunks_chars(p).contains(p[i].chars@[j]),
    decreases p.len(),
{
    if i == p.len() - 1 {
        let n = chunks_chars(p.drop_last()).len();
        assert(chunks_chars(p)[n + j] == p[i].chars@[j]);
    } else {
        lemma_chunks_chars_member(p.drop_last(), i, j);
        let c = p[i].chars@[j];
        let k = choose|k: int|
            0 <= k < chunks_chars(p.drop_last()).len() && chunks_chars(p.drop_last())[k] == c;
        assert(chunks_chars(p)[k] == c);
    }
}

/// Splits the repertoire by area: result `r` holds exactly the characters
/// of the area of rank `r`, in input order, with the guaranteed characters
/// (drawn from `remain`) first.
///
/// `remain` and `rest` are the two halves of the retained repertoire: the
/// guaranteed characters and all others.
pub fn group_by_area(remain: &Vec<CharInfo>, rest: &Vec<CharInfo>) -> (groups: Vec<AreaGroup>)
    ensures
        groups@.len() == NUM_AREAS,
        forall|r: int|
            0 <= r < NUM_AREAS ==> {
                &&& (#[trigger] groups@[r]).area == area_at_rank(r)
                &&& groups@[r].chars@ == filter_area(remain@, area_at_rank(r)) + filter_area(
                    rest@,
                    area_at_rank(r),
                )
                &&& groups@[r].n_remain == filter_area(remain@, area_at_rank(r)).len()
                &&& groups@[r].n_remain <= groups@[r].chars@.len()
            },
{
    let mut groups: Vec<AreaGroup> = Vec::new();
    let mut r: usize = 0;
    while r < NUM_AREAS
        invariant
            groups@.len() == r,
            r <= NUM_AREAS,
            forall|q: int|
                0 <= q < r ==> {
                    &&& (#[trigger] groups@[q]).area == area_at_rank(q)
                    &&& groups@[q].chars@ == filter_area(remain@, area_at_rank(q)) + filter_area(
                        rest@,
                        area_at_rank(q),
                    )
                    &&& groups@[q].n_remain == filter_area(remain@, area_at_rank(q)).len()
                    &&& groups@[q].n_remain <= groups@[q].chars@.len()
                },
        decreases NUM_AREAS - r,
    {
        let area = area_from_rank(r);
        let mut chars: Vec<CharInfo> = Vec::new();
        filter_area_into(remain, area, &mut chars);
        let n_remain = chars.len();
        filter_area_into(rest, area, &mut chars);
        proof {
            assert(chars@ =~= filter_area(remain@, area) + filter_area(rest@, area));
        }
        groups.push(AreaGroup { area, chars, n_remain });
        r = r + 1;
    }
    groups
}

/// Appends the characters of `src` that belong to `area` onto `out`.
fn filter_area_into(src: &Vec<CharInfo>, area: Area, out: &mut Vec<CharInfo>)
    ensures
        final(out)@ == old(out)@ + filter_area(src@, area),
{
    let mut i: usize = 0;
    while i < src.len()
        invariant
            i <= src.len(),
            out@ == old(out)@ + filter_area(src@.take(i as int), area),
        decreases src.len() - i,
    {
        let c = src[i];
        proof {
            assert(src@.take(i + 1).drop_last() =~= src@.take(i as int));
            assert(src@.take(i + 1).last() == src@[i as int]);
        }
        let ca = classify(c.cp);
        if areas_equal(ca, area) {
            out.push(c);
            proof {
                assert(out@ =~= old(out)@ + filter_area(src@.take(i + 1), area));
            }
        } else {
            proof {
                assert(out@ =~= old(out)@ + filter_area(src@.take(i + 1), area));
            }
        }
        i = i + 1;
    }
    proof {
        assert(src@.take(src@.len() as int) =~= src@);
    }
}

/// Equality test on areas.
pub fn areas_equal(a: Area, b: Area) -> (r: bool)
    ensures
        r <==> a == b,
{
    a == b
}

} // verus!
