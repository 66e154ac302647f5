//! What holds of every arc and every set of arcs.

use vstd::prelude::*;
use vstd::arithmetic::power2::pow2;
use vstd::arithmetic::power2::lemma_pow2_pos;
use crate::arq::covered_len;
use crate::arq::ArqBounded;
use crate::arq::ArqBounds;
use crate::arq_set::bounds_of_runs;
use crate::arq_set::can_requantize;
use crate::arq_set::common_coverage;
use crate::arq_set::coverage;
use crate::arq_set::is_intersection;
use crate::arq_set::lemma_min_power;
use crate::arq_set::lemma_requantize_identity;
use crate::arq_set::lemma_requantized_keeps_len;
use crate::arq_set::lemma_requantized_wf;
use crate::arq_set::lower_power;
use crate::arq_set::min_power;
use crate::arq_set::normalized;
use crate::arq_set::requantized;
use crate::arq_set::ArqSetView;
use crate::arq::interval_of;
use crate::arq_set::intervals_of;
use crate::geometry::left_edge;
use crate::geometry::lemma_refined_interval;
use crate::geometry::requantized_count;
use crate::interval::ArcInterval;
use crate::raw::lists_runs;
use crate::raw::widened;
use crate::arq::bounds_from_interval;
use crate::interval::succ_loc;
use crate::runs::lemma_runs_of_interval;
use crate::runs::lemma_runs_of_nothing;
use crate::runs::lemma_runs_unique;
use crate::runs::widened_runs;
use crate::topology::Topology;

verus! {

/// A set made of arcs is at the lowest of their powers, and each member
/// covers the length that it was given with, from the same offset.
///
/// This is said of arcs that have a count at the lowest power: a count that
/// does not fit in 32 bits is no count.
pub proof fn law_normalization<A: ArqBounded>(arqs: Seq<A>)
    requires
        arqs.len() > 0,
        can_requantize(arqs, min_power(arqs)),
    ensures
        forall|i: int|
            0 <= i < arqs.len() ==> normalized(arqs).power <= (#[trigger] arqs[i]).power_spec(),
        exists|i: int| 0 <= i < arqs.len() && (#[trigger] arqs[i]).power_spec() == normalized(arqs).power,
        normalized(arqs).arqs.len() == arqs.len(),
        normalized(arqs).wf(),
        forall|i: int|
            0 <= i < arqs.len() ==> covered_len(#[trigger] normalized(arqs).arqs[i]) == covered_len(
                arqs[i],
            ) && normalized(arqs).arqs[i].offset_spec() == arqs[i].offset_spec(),
{
    lemma_min_power(arqs);
    lemma_requantized_wf(arqs, min_power(arqs));
    lemma_requantized_keeps_len(arqs, min_power(arqs));
}

/// The set made of no arcs is the empty set at power 1.
pub proof fn law_empty_set<A: ArqBounded>()
    ensures
        normalized(Seq::<A>::empty()) == (ArqSetView { arqs: Seq::<A>::empty(), power: 1 }),
{
    assert(requantized(Seq::<A>::empty(), 1) =~= Seq::<A>::empty());
}

/// The intersection with a set without members has no members, and is at
/// the lower of the two powers.
pub proof fn law_intersection_with_empty<A: ArqBounded>(
    a: ArqSetView<A>,
    b: ArqSetView<A>,
    topo: Topology,
    r: ArqSetView<ArqBounds>,
)
    requires
        is_intersection(a, b, topo, r),
        a.arqs.len() == 0 || b.arqs.len() == 0,
    ensures
        r.arqs.len() == 0,
        r.power == lower_power(a, b),
{
    let t = common_coverage(a, b, topo);
    assert(t =~= Set::<int>::empty());
    let ivs = choose|ivs: Seq<ArcInterval>| #[trigger]
        lists_runs(ivs, t) && r.arqs == bounds_of_runs(
            ivs,
            topo.space,
            lower_power(a, b),
        );
    lemma_runs_of_nothing(ivs, t);
}

/// An arc refined by `k` powers and brought back to its own power is the arc
/// again, wherever the refined count fits.
pub proof fn law_requantize_round_trip<A: ArqBounded>(a: A, k: u8)
    requires
        k <= a.power_spec(),
        a.requantize_spec((a.power_spec() - k) as u8) is Some,
    ensures
        a.requantize_spec((a.power_spec() - k) as u8).unwrap().requantize_spec(a.power_spec())
            == Some(a),
{
    let fine = (a.power_spec() - k) as u8;
    let b = a.requantize_spec(fine).unwrap();
    a.lemma_requantize_spec(fine);
    b.lemma_requantize_spec(a.power_spec());
    if k == 0 {
        lemma_requantize_identity(a);
        lemma_requantize_identity(b);
        b.lemma_same_parts(&a);
    } else {
        let f = pow2(k as nat) as int;
        let c = a.count_spec() as int;
        lemma_pow2_pos(k as nat);
        assert(b.count_spec() == c * f);
        assert((c * f) % f == 0 && (c * f) / f == c) by (nonlinear_arith)
            requires
                f > 0,
                c >= 0,
        ;
        assert(requantized_count(fine, b.count_spec(), a.power_spec()) == Some(a.count_spec()));
        let back = b.requantize_spec(a.power_spec()).unwrap();
        back.lemma_same_parts(&a);
    }
}

/// Two sets have one intersection: what `is_intersection` says of a result
/// leaves no choice of its power or of its members.
pub proof fn law_intersection_is_determined<A: ArqBounded>(
    a: ArqSetView<A>,
    b: ArqSetView<A>,
    topo: Topology,
    r1: ArqSetView<ArqBounds>,
    r2: ArqSetView<ArqBounds>,
)
    requires
        is_intersection(a, b, topo, r1),
        is_intersection(a, b, topo, r2),
    ensures
        r1 == r2,
{
    let t = common_coverage(a, b, topo);
    let power = lower_power(a, b);
    let ivs1 = choose|ivs: Seq<ArcInterval>| #[trigger]
        lists_runs(ivs, t) && r1.arqs == bounds_of_runs(ivs, topo.space, power);
    let ivs2 = choose|ivs: Seq<ArcInterval>| #[trigger]
        lists_runs(ivs, t) && r2.arqs == bounds_of_runs(ivs, topo.space, power);
    lemma_runs_unique(ivs1, ivs2, t);
    assert forall|i: int| 0 <= i < ivs1.len() implies widened(#[trigger] ivs1[i]) == widened(
        ivs2[i],
    ) by {
        assert(widened_runs(ivs1)[i] == widened_runs(ivs2)[i]);
    }
    assert(widened_runs(ivs1).len() == widened_runs(ivs2).len());
    assert(r1.arqs =~= r2.arqs);
}

/// Where the locations that two sets have in common are one interval that is
/// not the whole circle, their intersection has one member: the bounds of
/// that interval.
pub proof fn law_intersection_of_one_run<A: ArqBounded>(
    a: ArqSetView<A>,
    b: ArqSetView<A>,
    topo: Topology,
    r: ArqSetView<ArqBounds>,
    lo: u32,
    hi: u32,
)
    requires
        is_intersection(a, b, topo, r),
        common_coverage(a, b, topo) == ArcInterval::Bounded(lo, hi).points(),
        succ_loc(hi as int) != lo,
        hi != u32::MAX - 1,
    ensures
        r.arqs == seq![
            bounds_from_interval(
                topo.space,
                lower_power(a, b),
                ArcInterval::Bounded(lo, hi),
            ).unwrap(),
        ],
{
    let t = common_coverage(a, b, topo);
    let ivs = choose|ivs: Seq<ArcInterval>| #[trigger]
        lists_runs(ivs, t) && r.arqs == bounds_of_runs(ivs, topo.space, lower_power(a, b));
    lemma_runs_of_interval(ivs, lo, hi);
    assert(widened_runs(ivs)[0] == ArcInterval::Bounded(lo, hi));
    assert(r.arqs =~= seq![
        bounds_from_interval(
            topo.space,
            lower_power(a, b),
            ArcInterval::Bounded(lo, hi),
        ).unwrap(),
    ]);
}

/// The intersection of `a` with `b` and that of `b` with `a` are one set:
/// the same power, the same members in the same order, and so the same
/// locations.
pub proof fn law_intersection_commutes<A: ArqBounded>(
    a: ArqSetView<A>,
    b: ArqSetView<A>,
    topo: Topology,
    ab: ArqSetView<ArqBounds>,
    ba: ArqSetView<ArqBounds>,
)
    requires
        is_intersection(a, b, topo, ab),
        is_intersection(b, a, topo, ba),
    ensures
        ab == ba,
        coverage(ab.arqs, topo) == coverage(ba.arqs, topo),
{
    assert(common_coverage(a, b, topo) =~= common_coverage(b, a, topo));
    assert(is_intersection(a, b, topo, ba));
    law_intersection_is_determined(a, b, topo, ab, ba);
}

/// The intersection of a set with itself covers what the set covers, at the
/// power of the set.
pub proof fn law_intersection_with_itself<A: ArqBounded>(
    a: ArqSetView<A>,
    topo: Topology,
    r: ArqSetView<ArqBounds>,
)
    requires
        a.wf(),
        is_intersection(a, a, topo, r),
    ensures
        r.power == a.power,
        requantized(a.arqs, a.power) == a.arqs,
        coverage(r.arqs, topo) == coverage(a.arqs, topo),
{
    assert forall|i: int| 0 <= i < a.arqs.len() implies #[trigger] requantized(a.arqs, a.power)[i]
        == a.arqs[i] by {
        lemma_requantize_identity(a.arqs[i]);
    }
    assert(requantized(a.arqs, a.power) =~= a.arqs);
    assert(common_coverage(a, a, topo) =~= coverage(a.arqs, topo));
}

/// The arc starts on its left edge: its offset is a multiple of its chunk
/// size, below the size of the space.
pub open spec fn starts_on_edge<A: ArqBounded>(a: A, topo: Topology) -> bool {
    left_edge(topo.space, a.offset_spec(), a.power_spec()) == a.offset_spec()
}

/// An arc that starts on its left edge covers the same locations at every
/// finer power, and starts on its left edge there.
pub proof fn law_refinement_keeps_interval<A: ArqBounded>(a: A, topo: Topology, power: u8)
    requires
        topo.space.wf(),
        power <= a.power_spec(),
        starts_on_edge(a, topo),
        a.requantize_spec(power) is Some,
    ensures
        interval_of(a.requantize_spec(power).unwrap(), topo) == interval_of(a, topo),
        starts_on_edge(a.requantize_spec(power).unwrap(), topo),
{
    a.lemma_requantize_spec(power);
    lemma_refined_interval(topo.space, a.offset_spec(), a.power_spec(), a.count_spec(), power);
}

/// Arcs that start on their left edges cover the same locations once they
/// are brought to a power that is no higher than any of theirs.
pub proof fn law_refinement_keeps_coverage<A: ArqBounded>(arqs: Seq<A>, topo: Topology, power: u8)
    requires
        topo.space.wf(),
        can_requantize(arqs, power),
        forall|i: int|
            0 <= i < arqs.len() ==> power <= (#[trigger] arqs[i]).power_spec() && starts_on_edge(
                arqs[i],
                topo,
            ),
    ensures
        intervals_of(requantized(arqs, power), topo) == intervals_of(arqs, topo),
        coverage(requantized(arqs, power), topo) == coverage(arqs, topo),
        forall|i: int|
            0 <= i < arqs.len() ==> starts_on_edge(#[trigger] requantized(arqs, power)[i], topo),
{
    assert forall|i: int| 0 <= i < arqs.len() implies #[trigger] intervals_of(
        requantized(arqs, power),
        topo,
    )[i] == intervals_of(arqs, topo)[i] && starts_on_edge(requantized(arqs, power)[i], topo) by {
        law_refinement_keeps_interval(arqs[i], topo, power);
    }
    assert(intervals_of(requantized(arqs, power), topo) =~= intervals_of(arqs, topo));
    assert forall|i: int| 0 <= i < arqs.len() implies starts_on_edge(
        #[trigger] requantized(arqs, power)[i],
        topo,
    ) by {
        law_refinement_keeps_interval(arqs[i], topo, power);
    }
}

/// A set made of arcs that start on their left edges covers what the arcs
/// cover.
pub proof fn law_normalization_keeps_coverage<A: ArqBounded>(arqs: Seq<A>, topo: Topology)
    requires
        topo.space.wf(),
        can_requantize(arqs, min_power(arqs)),
        forall|i: int| 0 <= i < arqs.len() ==> starts_on_edge(#[trigger] arqs[i], topo),
    ensures
        coverage(normalized(arqs).arqs, topo) == coverage(arqs, topo),
{
    if arqs.len() > 0 {
        lemma_min_power(arqs);
    }
    law_refinement_keeps_coverage(arqs, topo, min_power(arqs));
}

/// The intersection of two sets whose members start on their left edges
/// covers the locations that both sets cover.
pub proof fn law_intersection_of_bounds<A: ArqBounded>(
    a: ArqSetView<A>,
    b: ArqSetView<A>,
    topo: Topology,
    r: ArqSetView<ArqBounds>,
)
    requires
        topo.space.wf(),
        a.wf(),
        b.wf(),
        can_requantize(a.arqs, lower_power(a, b)),
        can_requantize(b.arqs, lower_power(a, b)),
        forall|i: int| 0 <= i < a.arqs.len() ==> starts_on_edge(#[trigger] a.arqs[i], topo),
        forall|i: int| 0 <= i < b.arqs.len() ==> starts_on_edge(#[trigger] b.arqs[i], topo),
        is_intersection(a, b, topo, r),
    ensures
        coverage(r.arqs, topo) == coverage(a.arqs, topo).intersect(coverage(b.arqs, topo)),
{
    law_refinement_keeps_coverage(a.arqs, topo, lower_power(a, b));
    law_refinement_keeps_coverage(b.arqs, topo, lower_power(a, b));
}

} // verus!
