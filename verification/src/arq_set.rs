//! Sets of arcs, all at one power.

use vstd::prelude::*;
use kitsune_p2p_dht_arc::DhtArcSet;
use crate::arq::bounds_from_interval;
use crate::arq::bounds_from_interval_rounded;
use crate::arq::covered_len;
use crate::arq::interval_of;
use crate::arq::lemma_from_interval;
use crate::arq::Arq;
use crate::arq::ArqBounded;
use crate::arq::ArqBounds;
use crate::geometry::lemma_arc_interval_aligned;
use crate::geometry::lemma_grid;
use crate::geometry::lemma_requantized_count;
use crate::interval::all_locs;
use crate::interval::lemma_aligned_even;
use crate::interval::lemma_intersect_saturated;
use crate::interval::lemma_saturated_end;
use crate::interval::lemma_saturated_start;
use crate::interval::lemma_union_saturated;
use crate::interval::saturated;
use crate::interval::union_points;
use crate::interval::ArcInterval;
use crate::raw::arc_set_from_intervals;
use crate::raw::arc_set_intersection;
use crate::raw::arc_set_intervals;
use crate::raw::arc_set_locs;
use crate::raw::lists_runs;
use crate::raw::widened;
use crate::runs::lemma_run_in_set;
use crate::runs::lemma_runs_of_nothing;
use crate::strat::chosen_power;
use crate::strat::power_and_count_from_length;
use crate::strat::ArqStrat;
use crate::topology::Dimension;
use crate::topology::Topology;
use crate::topology::FULL_LEN;

verus! {

/// What a set of arcs is: its members in order, and the power they share.
pub struct ArqSetView<A> {
    pub arqs: Seq<A>,
    pub power: u8,
}

impl<A: ArqBounded> ArqSetView<A> {
    /// Every member is at the power of the set.
    pub open spec fn wf(self) -> bool {
        forall|i: int| 0 <= i < self.arqs.len() ==> (#[trigger] self.arqs[i]).power_spec() == self.power
    }
}

/// The lowest power among the arcs; 1 where there is no arc.
pub open spec fn min_power<A: ArqBounded>(arqs: Seq<A>) -> u8
    decreases arqs.len(),
{
    if arqs.len() == 0 {
        1
    } else if arqs.len() == 1 {
        arqs[0].power_spec()
    } else {
        let rest = min_power(arqs.drop_last());
        if arqs.last().power_spec() < rest {
            arqs.last().power_spec()
        } else {
            rest
        }
    }
}

/// Each of the arcs can be requantized to `power`.
pub open spec fn can_requantize<A: ArqBounded>(arqs: Seq<A>, power: u8) -> bool {
    forall|i: int| 0 <= i < arqs.len() ==> (#[trigger] arqs[i]).requantize_spec(power) is Some
}

/// The arcs, each requantized to `power`.
pub open spec fn requantized<A: ArqBounded>(arqs: Seq<A>, power: u8) -> Seq<A> {
    Seq::new(arqs.len(), |i: int| arqs[i].requantize_spec(power).unwrap())
}

/// The arcs brought to their lowest power.
pub open spec fn normalized<A: ArqBounded>(arqs: Seq<A>) -> ArqSetView<A> {
    ArqSetView { arqs: requantized(arqs, min_power(arqs)), power: min_power(arqs) }
}

/// The interval of each arc.
pub open spec fn intervals_of<A: ArqBounded>(arqs: Seq<A>, topo: Topology) -> Seq<ArcInterval> {
    Seq::new(arqs.len(), |i: int| interval_of(arqs[i], topo))
}

/// The locations that at least one of the arcs covers.
pub open spec fn coverage<A: ArqBounded>(arqs: Seq<A>, topo: Topology) -> Set<int> {
    union_points(intervals_of(arqs, topo))
}

/// The bounds of each run of `ivs` at `power`.
pub open spec fn bounds_of_runs(ivs: Seq<ArcInterval>, dim: Dimension, power: u8) -> Seq<ArqBounds> {
    Seq::new(ivs.len(), |i: int| bounds_from_interval(dim, power, widened(ivs[i])).unwrap())
}

/// The lower of the powers of two sets.
pub open spec fn lower_power<A: ArqBounded>(a: ArqSetView<A>, b: ArqSetView<A>) -> u8 {
    if a.power <= b.power {
        a.power
    } else {
        b.power
    }
}

/// The locations that two sets both cover once each is brought to the lower
/// of their powers.
pub open spec fn common_coverage<A: ArqBounded>(
    a: ArqSetView<A>,
    b: ArqSetView<A>,
    topo: Topology,
) -> Set<int> {
    coverage(requantized(a.arqs, lower_power(a, b)), topo).intersect(
        coverage(requantized(b.arqs, lower_power(a, b)), topo),
    )
}

/// `r` is the intersection of the sets `a` and `b`: it is at the lower of
/// their powers, and its members are the runs of the locations that both
/// sets cover once brought to that power, each run as bounds.
pub open spec fn is_intersection<A: ArqBounded>(
    a: ArqSetView<A>,
    b: ArqSetView<A>,
    topo: Topology,
    r: ArqSetView<ArqBounds>,
) -> bool {
    &&& r.power == lower_power(a, b)
    &&& r.wf()
    &&& coverage(r.arqs, topo) == common_coverage(a, b, topo)
    &&& exists|ivs: Seq<ArcInterval>| #[trigger]
        lists_runs(ivs, common_coverage(a, b, topo)) && r.arqs == bounds_of_runs(
            ivs,
            topo.space,
            lower_power(a, b),
        )
}

/// The lowest power is no higher than the power of any arc, and is the power
/// of one of them.
pub proof fn lemma_min_power<A: ArqBounded>(arqs: Seq<A>)
    requires
        arqs.len() > 0,
    ensures
        forall|i: int| 0 <= i < arqs.len() ==> min_power(arqs) <= (#[trigger] arqs[i]).power_spec(),
        exists|i: int| 0 <= i < arqs.len() && (#[trigger] arqs[i]).power_spec() == min_power(arqs),
    decreases arqs.len(),
{
    if arqs.len() == 1 {
        assert(arqs[0].power_spec() == min_power(arqs));
    } else {
        let front = arqs.drop_last();
        lemma_min_power(front);
        assert forall|i: int| 0 <= i < arqs.len() implies min_power(arqs) <= (
        #[trigger] arqs[i]).power_spec() by {
            if i < front.len() {
                assert(front[i] == arqs[i]);
            }
        }
        let j = choose|j: int| 0 <= j < front.len() && (#[trigger] front[j]).power_spec() == min_power(front);
        assert(front[j] == arqs[j]);
        if arqs.last().power_spec() < min_power(front) {
            assert(arqs[arqs.len() - 1].power_spec() == min_power(arqs));
        } else {
            assert(arqs[j].power_spec() == min_power(arqs));
        }
    }
}

/// A set of arcs, all at one power: the lowest of the powers that they were
/// given at.
#[derive(Debug, PartialEq, Eq)]
pub struct ArqSetImpl<A: ArqBounded> {
    pub(crate) arqs: Vec<A>,
    power: u8,
}

/// A set of arcs around points.
pub type ArqSet = ArqSetImpl<Arq>;

/// A set of arcs with their starts written out.
pub type ArqBoundsSet = ArqSetImpl<ArqBounds>;

impl<A: ArqBounded> View for ArqSetImpl<A> {
    type V = ArqSetView<A>;

    closed spec fn view(&self) -> ArqSetView<A> {
        ArqSetView { arqs: self.arqs@, power: self.power }
    }
}

impl<A: ArqBounded> Clone for ArqSetImpl<A> {
    fn clone(&self) -> (r: Self)
        ensures
            r@ == self@,
    {
        proof {
            use_type_invariant(self);
        }
        let mut arqs: Vec<A> = Vec::new();
        let mut i: usize = 0;
        while i < self.arqs.len()
            invariant
                i <= self.arqs@.len(),
                arqs@ == self.arqs@.take(i as int),
            decreases self.arqs@.len() - i,
        {
            arqs.push(self.arqs[i]);
            i += 1;
            assert(arqs@ =~= self.arqs@.take(i as int));
        }
        assert(arqs@ =~= self.arqs@);
        ArqSetImpl { arqs, power: self.power }
    }
}

impl<A: ArqBounded> ArqSetImpl<A> {
    #[verifier::type_invariant]
    spec fn inv(&self) -> bool {
        self@.wf()
    }

    /// The lowest power among the arcs.
    fn lowest_power(arqs: &Vec<A>) -> (p: u8)
        ensures
            p == min_power(arqs@),
    {
        if arqs.len() == 0 {
            return 1;
        }
        let mut p = arqs[0].power();
        let mut i: usize = 1;
        assert(arqs@.take(1).len() == 1);
        while i < arqs.len()
            invariant
                1 <= i <= arqs@.len(),
                p == min_power(arqs@.take(i as int)),
            decreases arqs@.len() - i,
        {
            let q = arqs[i].power();
            assert(arqs@.take(i + 1).drop_last() =~= arqs@.take(i as int));
            if q < p {
                p = q;
            }
            i += 1;
        }
        assert(arqs@.take(i as int) =~= arqs@);
        p
    }

    /// The arcs, each requantized to `power`, where all of them can be.
    fn requantize_all(arqs: &Vec<A>, power: u8) -> (r: Option<Vec<A>>)
        ensures
            r is Some <==> can_requantize(arqs@, power),
            r matches Some(v) ==> v@ == requantized(arqs@, power),
    {
        let mut out: Vec<A> = Vec::new();
        let mut i: usize = 0;
        while i < arqs.len()
            invariant
                i <= arqs@.len(),
                out@.len() == i,
                forall|j: int|
                    0 <= j < i ==> (#[trigger] arqs@[j]).requantize_spec(power) == Some(out@[j]),
            decreases arqs@.len() - i,
        {
            match arqs[i].requantize(power) {
                Some(a) => {
                    out.push(a);
                },
                None => {
                    assert(arqs@[i as int].requantize_spec(power) is None);
                    return None;
                },
            }
            i += 1;
        }
        assert(out@ =~= requantized(arqs@, power));
        Some(out)
    }

    /// The set of the arcs at their lowest power, or `None` where the count
    /// of one of them at that power would not fit in 32 bits.
    pub fn try_new(arqs: Vec<A>) -> (r: Option<Self>)
        ensures
            r is Some <==> can_requantize(arqs@, min_power(arqs@)),
            r matches Some(s) ==> s@ == normalized(arqs@) && s@.wf(),
    {
        let power = Self::lowest_power(&arqs);
        match Self::requantize_all(&arqs, power) {
            Some(members) => {
                proof {
                    lemma_requantized_wf(arqs@, power);
                }
                Some(ArqSetImpl { arqs: members, power })
            },
            None => None,
        }
    }

    /// Normalize all arcs to the same power: the lowest among them. Each
    /// member keeps its offset and its covered length. No arc gives the empty
    /// set, at power 1.
    ///
    /// An arc whose count at the lowest power would not fit in 32 bits cannot
    /// be a member.
    pub fn new(arqs: Vec<A>) -> (r: Self)
        requires
            can_requantize(arqs@, min_power(arqs@)),
        ensures
            r@ == normalized(arqs@),
            r@.wf(),
            r@.arqs.len() == arqs@.len(),
            forall|i: int|
                0 <= i < arqs@.len() ==> covered_len(#[trigger] r@.arqs[i]) == covered_len(arqs@[i])
                    && r@.arqs[i].offset_spec() == arqs@[i].offset_spec(),
    {
        proof {
            lemma_requantized_keeps_len(arqs@, min_power(arqs@));
        }
        Self::try_new(arqs).unwrap()
    }

    /// The set without members, at power 1.
    pub fn empty() -> (r: Self)
        ensures
            r@ == normalized(Seq::<A>::empty()),
            r@.arqs == Seq::<A>::empty(),
            r@.power == 1,
    {
        let r = ArqSetImpl { arqs: Vec::new(), power: 1 };
        assert(r@.arqs =~= requantized(Seq::<A>::empty(), 1));
        r
    }

    /// The set of one arc, as it is.
    pub fn single(arq: A) -> (r: Self)
        ensures
            r@ == normalized(seq![arq]),
            r@.arqs == seq![arq],
            r@.power == arq.power_spec(),
    {
        let mut arqs: Vec<A> = Vec::new();
        arqs.push(arq);
        proof {
            assert(arqs@ =~= seq![arq]);
            lemma_requantize_identity(arq);
            assert(requantized(seq![arq], arq.power_spec()) =~= seq![arq]);
        }
        ArqSetImpl { arqs, power: arq.power() }
    }

    /// The power that all members are at.
    pub fn power(&self) -> (p: u8)
        ensures
            p == self@.power,
    {
        self.power
    }

    /// The members, in the order in which they were given.
    pub fn arqs(&self) -> (r: &[A])
        ensures
            r@ == self@.arqs,
            self@.wf(),
    {
        proof {
            use_type_invariant(self);
        }
        self.arqs.as_slice()
    }

    /// The interval of each member, in order.
    pub fn to_intervals(&self, topo: &Topology) -> (ivs: Vec<ArcInterval>)
        ensures
            ivs@ == intervals_of(self@.arqs, *topo),
    {
        let mut ivs: Vec<ArcInterval> = Vec::new();
        let mut i: usize = 0;
        while i < self.arqs.len()
            invariant
                i <= self.arqs@.len(),
                ivs@.len() == i,
                forall|j: int| 0 <= j < i ==> #[trigger] ivs@[j] == interval_of(self.arqs@[j], *topo),
            decreases self.arqs@.len() - i,
        {
            let iv = self.arqs[i].to_interval(topo);
            ivs.push(iv);
            i += 1;
        }
        assert(ivs@ =~= intervals_of(self@.arqs, *topo));
        ivs
    }

    /// The raw set of the locations that the members cover.
    ///
    /// The raw set cannot tell the last two locations of the circle apart, so
    /// a chunk of the set is at least two locations long.
    pub fn to_dht_arc_set(&self, topo: &Topology) -> (set: DhtArcSet)
        requires
            topo.space.chunk_len(self@.power) >= 2,
        ensures
            arc_set_locs(set) == coverage(self@.arqs, *topo),
    {
        let ivs = self.to_intervals(topo);
        proof {
            use_type_invariant(self);
            use_type_invariant(&topo.space);
            lemma_members_aligned(self@, *topo);
            lemma_chunk_len_even(topo.space, self.power);
            assert forall|j: int| 0 <= j < ivs@.len() implies crate::raw::kept_exactly(
                #[trigger] ivs@[j],
            ) by {
                lemma_aligned_even(ivs@[j], topo.space.chunk_len(self.power));
            }
        }
        arc_set_from_intervals(&ivs)
    }

    /// The set with every member requantized to `power`, or `None` where one
    /// of them cannot be: the set is converted as a whole or not at all.
    pub fn requantize(&self, power: u8) -> (r: Option<Self>)
        ensures
            r is Some <==> can_requantize(self@.arqs, power),
            r matches Some(s) ==> s@.arqs == requantized(self@.arqs, power) && s@.power == power
                && s@.wf(),
    {
        match Self::requantize_all(&self.arqs, power) {
            Some(members) => {
                proof {
                    lemma_requantized_wf(self.arqs@, power);
                }
                Some(ArqSetImpl { arqs: members, power })
            },
            None => None,
        }
    }

    /// The arcs that both sets cover, at the lower of the two powers.
    ///
    /// Both sets are brought to that power, their raw sets are intersected,
    /// and each run of the result becomes one member.
    ///
    /// The members of both sets must have a count at that power, and a chunk
    /// at that power must be at least two locations long, as the raw set
    /// cannot tell the last two locations of the circle apart.
    pub fn intersection(&self, topo: &Topology, other: &Self) -> (r: ArqSetImpl<ArqBounds>)
        requires
            topo.space.chunk_len(lower_power(self@, other@)) >= 2,
            can_requantize(self@.arqs, lower_power(self@, other@)),
            can_requantize(other@.arqs, lower_power(self@, other@)),
        ensures
            is_intersection(self@, other@, *topo, r@),
            self@.arqs.len() == 0 || other@.arqs.len() == 0 ==> r@.arqs.len() == 0,
            forall|i: int|
                0 <= i < r@.arqs.len() ==> (#[trigger] r@.arqs[i]).aligned(topo.space)
                    && r@.arqs[i].count > 0,
    {
        let power = if self.power <= other.power {
            self.power
        } else {
            other.power
        };
        let a = self.requantize(power).unwrap();
        let b = other.requantize(power).unwrap();
        let s1 = a.to_dht_arc_set(topo);
        let s2 = b.to_dht_arc_set(topo);
        let both = arc_set_intersection(&s1, &s2);
        let ivs = arc_set_intervals(&both);
        let ghost t = arc_set_locs(both);
        let ghost s = topo.space.chunk_len(power);
        let ghost dim = topo.space;
        proof {
            use_type_invariant(&topo.space);
            lemma_grid(dim, power);
            lemma_members_aligned(a@, *topo);
            lemma_members_aligned(b@, *topo);
            lemma_union_saturated(intervals_of(a@.arqs, *topo), s);
            lemma_union_saturated(intervals_of(b@.arqs, *topo), s);
            lemma_intersect_saturated(coverage(a@.arqs, *topo), coverage(b@.arqs, *topo), s);
            lemma_runs_have_bounds(ivs@, t, dim, power);
        }
        let out = runs_to_bounds(topo, power, &ivs).unwrap();
        proof {
            assert(t == common_coverage(self@, other@, *topo));
            lemma_bounds_of_runs(ivs@, t, *topo, power);
            assert(lists_runs(ivs@, common_coverage(self@, other@, *topo)) && out@
                == bounds_of_runs(ivs@, topo.space, lower_power(self@, other@)));
            if self@.arqs.len() == 0 || other@.arqs.len() == 0 {
                assert(t =~= Set::<int>::empty());
                lemma_runs_of_nothing(ivs@, t);
            }
        }
        ArqSetImpl { arqs: out, power }
    }

    /// Whether `intersection` can take these two sets in this topology.
    pub fn can_intersect(&self, topo: &Topology, other: &Self) -> (ok: bool)
        ensures
            ok == ({
                &&& topo.space.chunk_len(lower_power(self@, other@)) >= 2
                &&& can_requantize(self@.arqs, lower_power(self@, other@))
                &&& can_requantize(other@.arqs, lower_power(self@, other@))
            }),
    {
        let power = if self.power <= other.power {
            self.power
        } else {
            other.power
        };
        let b = topo.space.bit_depth();
        proof {
            lemma_grid(topo.space, power);
        }
        if b == 32 && power == 0 {
            return false;
        }
        Self::requantize_all(&self.arqs, power).is_some() && Self::requantize_all(
            &other.arqs,
            power,
        ).is_some()
    }
}

/// The bounds that the chunking policy gives an interval: at the power that
/// it picks for the interval's length, the bounds nearest to the interval.
pub open spec fn policy_bounds(iv: ArcInterval, dim: Dimension, max_chunks: u32) -> ArqBounds {
    bounds_from_interval_rounded(
        dim,
        chosen_power(iv.len() / dim.quantum_len(), max_chunks),
        iv,
    )
}

/// The bounds that the chunking policy gives each run of `ivs`.
pub open spec fn policy_bounds_of_runs(ivs: Seq<ArcInterval>, dim: Dimension, max_chunks: u32) -> Seq<
    ArqBounds,
> {
    Seq::new(ivs.len(), |i: int| policy_bounds(widened(ivs[i]), dim, max_chunks))
}

/// The bounds of each run at `power`, or `None` where one of the runs is not
/// made of whole chunks at that power or has too many to count.
pub fn runs_to_bounds(topo: &Topology, power: u8, runs: &Vec<ArcInterval>) -> (r: Option<
    Vec<ArqBounds>,
>)
    ensures
        r is Some <==> forall|j: int|
            0 <= j < runs@.len() ==> bounds_from_interval(
                topo.space,
                power,
                widened(#[trigger] runs@[j]),
            ) is Some,
        r matches Some(v) ==> v@ == bounds_of_runs(runs@, topo.space, power),
{
    let mut out: Vec<ArqBounds> = Vec::new();
    let mut i: usize = 0;
    while i < runs.len()
        invariant
            i <= runs@.len(),
            out@.len() == i,
            forall|j: int|
                0 <= j < i ==> bounds_from_interval(topo.space, power, widened(#[trigger] runs@[j]))
                    == Some(out@[j]),
        decreases runs@.len() - i,
    {
        match ArqBounds::from_interval(topo, power, runs[i].widen()) {
            Some(bounds) => {
                out.push(bounds);
            },
            None => {
                assert(bounds_from_interval(topo.space, power, widened(runs@[i as int])) is None);
                return None;
            },
        }
        i += 1;
    }
    assert(out@ =~= bounds_of_runs(runs@, topo.space, power));
    Some(out)
}

/// The bounds that the policy gives each run: each run at the power that the
/// policy picks for its length.
pub fn runs_to_policy_bounds(topo: &Topology, strat: &ArqStrat, runs: &Vec<ArcInterval>) -> (r:
    Vec<ArqBounds>)
    ensures
        r@ == policy_bounds_of_runs(runs@, topo.space, strat.max_chunks),
{
    let max_chunks = strat.max_chunks();
    let mut out: Vec<ArqBounds> = Vec::new();
    let mut i: usize = 0;
    while i < runs.len()
        invariant
            i <= runs@.len(),
            out@.len() == i,
            max_chunks == strat.max_chunks,
            forall|j: int|
                0 <= j < i ==> #[trigger] out@[j] == policy_bounds(
                    widened(runs@[j]),
                    topo.space,
                    max_chunks,
                ),
        decreases runs@.len() - i,
    {
        let iv = runs[i].widen();
        let len = iv.length();
        let (power, _) = power_and_count_from_length(&topo.space, len, max_chunks);
        out.push(ArqBounds::from_interval_rounded(topo, power, iv));
        i += 1;
    }
    assert(out@ =~= policy_bounds_of_runs(runs@, topo.space, strat.max_chunks));
    out
}

impl ArqSetImpl<ArqBounds> {
    /// The set of the runs of a raw set, each at the power that the policy
    /// picks for its length, normalized to the lowest of those powers; `None`
    /// where a count at that power would not fit in 32 bits.
    pub fn from_dht_arc_set(topo: &Topology, strat: &ArqStrat, dht_arc_set: &DhtArcSet) -> (r:
        Option<Self>)
        ensures
            exists|ivs: Seq<ArcInterval>| #[trigger]
                lists_runs(ivs, arc_set_locs(*dht_arc_set)) && is_normalized_or_none(
                    policy_bounds_of_runs(ivs, topo.space, strat.max_chunks),
                    r,
                ),
    {
        let ivs = arc_set_intervals(dht_arc_set);
        let members = runs_to_policy_bounds(topo, strat, &ivs);
        let ghost given = members@;
        let r = Self::try_new(members);
        assert(given == policy_bounds_of_runs(ivs@, topo.space, strat.max_chunks));
        assert(lists_runs(ivs@, arc_set_locs(*dht_arc_set)) && is_normalized_or_none(
            policy_bounds_of_runs(ivs@, topo.space, strat.max_chunks),
            r,
        ));
        r
    }
}

/// `r` is the set of the arcs at their lowest power where each of them has a
/// count there, and `None` where one has not.
pub open spec fn is_normalized_or_none<A: ArqBounded>(arqs: Seq<A>, r: Option<ArqSetImpl<A>>) -> bool {
    match r {
        Some(set) => can_requantize(arqs, min_power(arqs)) && set@ == normalized(arqs) && set@.wf(),
        None => !can_requantize(arqs, min_power(arqs)),
    }
}

/// Requantized arcs are at the power asked for.
pub proof fn lemma_requantized_wf<A: ArqBounded>(arqs: Seq<A>, power: u8)
    requires
        can_requantize(arqs, power),
    ensures
        (ArqSetView { arqs: requantized(arqs, power), power }).wf(),
{
    assert forall|i: int| 0 <= i < arqs.len() implies (#[trigger] requantized(
        arqs,
        power,
    )[i]).power_spec() == power by {
        arqs[i].lemma_requantize_spec(power);
    }
}

/// Requantized arcs keep their offsets and their covered lengths.
pub proof fn lemma_requantized_keeps_len<A: ArqBounded>(arqs: Seq<A>, power: u8)
    requires
        can_requantize(arqs, power),
    ensures
        forall|i: int|
            0 <= i < arqs.len() ==> covered_len(#[trigger] requantized(arqs, power)[i])
                == covered_len(arqs[i]) && requantized(arqs, power)[i].offset_spec()
                == arqs[i].offset_spec(),
{
    assert forall|i: int| 0 <= i < arqs.len() implies covered_len(
        #[trigger] requantized(arqs, power)[i],
    ) == covered_len(arqs[i]) && requantized(arqs, power)[i].offset_spec()
        == arqs[i].offset_spec() by {
        arqs[i].lemma_requantize_spec(power);
        lemma_requantized_count(arqs[i].power_spec(), arqs[i].count_spec(), power);
    }
}

/// An arc requantized to its own power is the arc.
pub proof fn lemma_requantize_identity<A: ArqBounded>(a: A)
    ensures
        a.requantize_spec(a.power_spec()) == Some(a),
{
    a.lemma_requantize_spec(a.power_spec());
    lemma_requantized_count(a.power_spec(), a.count_spec(), a.power_spec());
    let b = a.requantize_spec(a.power_spec()).unwrap();
    b.lemma_same_parts(&a);
}

/// The intervals of the members of a set are made of whole chunks at the
/// power of the set.
pub proof fn lemma_members_aligned<A: ArqBounded>(set: ArqSetView<A>, topo: Topology)
    requires
        set.wf(),
        topo.space.wf(),
    ensures
        forall|i: int|
            0 <= i < set.arqs.len() ==> (#[trigger] intervals_of(set.arqs, topo)[i]).aligned(
                topo.space.chunk_len(set.power),
            ),
{
    assert forall|i: int| 0 <= i < set.arqs.len() implies (#[trigger] intervals_of(
        set.arqs,
        topo,
    )[i]).aligned(topo.space.chunk_len(set.power)) by {
        let a = set.arqs[i];
        lemma_arc_interval_aligned(topo.space, a.offset_spec(), a.power_spec(), a.count_spec());
    }
}

/// A chunk of at least two locations has an even number of them.
pub proof fn lemma_chunk_len_even(dim: Dimension, power: u8)
    requires
        dim.wf(),
        dim.chunk_len(power) >= 2,
    ensures
        dim.chunk_len(power) % 2 == 0,
{
    lemma_grid(dim, power);
    let e = dim.chunk_exp(power);
    if e == 0 {
        vstd::arithmetic::power2::lemma2_to64();
    } else {
        vstd::arithmetic::power2::lemma_pow2_unfold(e);
    }
}

/// Each run of a set made of whole chunks has bounds.
pub proof fn lemma_runs_have_bounds(ivs: Seq<ArcInterval>, t: Set<int>, dim: Dimension, power: u8)
    requires
        dim.wf(),
        dim.chunk_len(power) >= 2,
        saturated(t, dim.chunk_len(power)),
        lists_runs(ivs, t),
    ensures
        forall|j: int|
            0 <= j < ivs.len() ==> bounds_from_interval(dim, power, widened(#[trigger] ivs[j]))
                is Some,
{
    lemma_grid(dim, power);
    let s = dim.chunk_len(power);
    let n = dim.chunk_count(power);
    assert(n <= 0x8000_0000) by (nonlinear_arith)
        requires
            s >= 2,
            s * n == FULL_LEN,
    ;
    assert forall|j: int| 0 <= j < ivs.len() implies bounds_from_interval(
        dim,
        power,
        widened(#[trigger] ivs[j]),
    ) is Some by {
        if t == all_locs() {
            assert(ivs[j] == ArcInterval::Full);
        } else {
            let w = widened(ivs[j]);
            lemma_run_in_set(ivs, t, j);
            match w {
                ArcInterval::Bounded(lo, hi) => {
                    lemma_saturated_start(t, s, lo as int);
                    lemma_saturated_end(t, s, hi as int);
                    assert(w.len() <= FULL_LEN);
                    assert(w.len() as int / (s as int) <= n) by (nonlinear_arith)
                        requires
                            w.len() <= s * n,
                            s > 0,
                    ;
                },
                _ => {},
            }
        }
    }
}

/// The bounds of the runs of a set made of whole chunks are at the power
/// asked for and cover the set.
pub proof fn lemma_bounds_of_runs(ivs: Seq<ArcInterval>, t: Set<int>, topo: Topology, power: u8)
    requires
        topo.space.wf(),
        topo.space.chunk_len(power) >= 2,
        saturated(t, topo.space.chunk_len(power)),
        lists_runs(ivs, t),
    ensures
        (ArqSetView { arqs: bounds_of_runs(ivs, topo.space, power), power }).wf(),
        coverage(bounds_of_runs(ivs, topo.space, power), topo) == t,
        forall|j: int|
            0 <= j < ivs.len() ==> (#[trigger] bounds_of_runs(ivs, topo.space, power)[j]).aligned(
                topo.space,
            ) && bounds_of_runs(ivs, topo.space, power)[j].count > 0,
{
    let dim = topo.space;
    let out = bounds_of_runs(ivs, dim, power);
    let wide = ivs.map_values(|iv: ArcInterval| widened(iv));
    let got = intervals_of(out, topo);
    lemma_runs_have_bounds(ivs, t, dim, power);
    lemma_grid(dim, power);
    assert forall|j: int| 0 <= j < ivs.len() implies (#[trigger] out[j]).power_spec() == power
        && got[j].points() == wide[j].points() && out[j].aligned(dim) && out[j].count > 0 by {
        lemma_from_interval(dim, power, widened(ivs[j]));
        if t == all_locs() {
            assert(ivs[j] == ArcInterval::Full);
        } else {
            lemma_run_in_set(ivs, t, j);
        }
    }
    if t == all_locs() {
        assert(ivs == seq![ArcInterval::Full]);
        assert(got[0].points() == wide[0].points());
        assert forall|x: int| t.contains(x) <==> coverage(out, topo).contains(x) by {
            if t.contains(x) {
                assert(wide[0].points().contains(x));
                assert(got[0].points().contains(x));
                assert(got[0].contains(x));
            }
        }
        assert(coverage(out, topo) =~= t);
    } else {
        assert forall|x: int| union_points(wide).contains(x) <==> coverage(out, topo).contains(
            x,
        ) by {
            if union_points(wide).contains(x) {
                let j = choose|j: int| 0 <= j < wide.len() && (#[trigger] wide[j]).contains(x);
                assert(wide[j].points().contains(x));
                assert(got[j].points().contains(x));
                assert(got[j].contains(x));
            }
            if coverage(out, topo).contains(x) {
                let j = choose|j: int| 0 <= j < got.len() && (#[trigger] got[j]).contains(x);
                assert(got[j].points().contains(x));
                assert(wide[j].points().contains(x));
                assert(wide[j].contains(x));
            }
        }
        assert(coverage(out, topo) =~= t);
    }
}

} // verus!
