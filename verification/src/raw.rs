//! The interval algebra of the circle, taken from `kitsune_p2p_dht_arc`.
//!
//! Nothing in this file is proved: each function hands its arguments to that
//! crate, and its contract says what the crate's source shows of the result.
//! The crate keeps a set of locations as sorted runs of `u32` and cannot hold
//! the last location of the circle in a run: it keeps the location before it
//! in its place. A set is therefore read here as holding the last location
//! whenever it holds the one before, and only intervals that treat the two
//! alike are handed to it.

use vstd::prelude::*;
use kitsune_p2p_dht_arc::DhtArcRange;
use kitsune_p2p_dht_arc::DhtArcSet;
use kitsune_p2p_dht_arc::DhtLocation;
use crate::interval::all_locs;
use crate::interval::pred_loc;
use crate::interval::succ_loc;
use crate::interval::union_points;
use crate::interval::ArcInterval;

verus! {

/// `kitsune_p2p_dht_arc::DhtArcSet`: a set of locations of the circle.
#[verifier::external_type_specification]
#[verifier::external_body]
pub struct ExDhtArcSet(DhtArcSet);

/// The locations that a `DhtArcSet` holds, each between 0 and `2^32 - 1`. The
/// last location counts as held where the one before it is.
pub uninterp spec fn arc_set_locs(set: DhtArcSet) -> Set<int>;

/// The bar that `DhtArcRange::to_ascii` draws of an interval in `len`
/// characters.
pub uninterp spec fn ascii_bar(iv: ArcInterval, len: usize) -> Seq<char>;

/// An interval that the interval algebra keeps as it is: it neither starts at
/// the last location nor ends at the one before it.
pub open spec fn kept_exactly(iv: ArcInterval) -> bool {
    iv matches ArcInterval::Bounded(lo, hi) ==> lo != u32::MAX && hi != u32::MAX - 1
}

/// The interval with its end moved from the location before the last to the
/// last: the two are one to the interval algebra.
pub open spec fn widened(iv: ArcInterval) -> ArcInterval {
    match iv {
        ArcInterval::Bounded(lo, hi) => if hi == u32::MAX - 1 {
            ArcInterval::Bounded(lo, u32::MAX)
        } else {
            iv
        },
        _ => iv,
    }
}

/// `ivs` lists the runs of the set `t`: the single full interval where `t` is
/// the whole circle; otherwise bounded intervals that together, widened,
/// make `t`, each with a location outside `t` before its first and after its
/// last, in ascending order of their first locations.
pub open spec fn lists_runs(ivs: Seq<ArcInterval>, t: Set<int>) -> bool {
    if t == all_locs() {
        ivs == seq![ArcInterval::Full]
    } else {
        &&& t == union_points(ivs.map_values(|iv: ArcInterval| widened(iv)))
        &&& forall|i: int|
            0 <= i < ivs.len() ==> (#[trigger] widened(ivs[i]) matches ArcInterval::Bounded(lo, hi)
                && !t.contains(pred_loc(lo as int)) && !t.contains(succ_loc(hi as int)))
        &&& forall|i: int, j: int|
            0 <= i < j < ivs.len() ==> (#[trigger] ivs[i] matches ArcInterval::Bounded(a, _)
                && #[trigger] ivs[j] matches ArcInterval::Bounded(b, _) && a < b)
    }
}

/// `DhtArcSet::from` on a vector of ranges: the union of the intervals. The
/// set holds exactly the locations of the intervals, as each of them is kept
/// as it is.
#[verifier::external_body]
pub(crate) fn arc_set_from_intervals(arcs: &Vec<ArcInterval>) -> (set: DhtArcSet)
    requires
        forall|i: int| 0 <= i < arcs@.len() ==> kept_exactly(#[trigger] arcs@[i]),
    ensures
        arc_set_locs(set) == union_points(arcs@),
{
    DhtArcSet::from(
        arcs.iter().map(
            |a| match a {
                ArcInterval::Empty => DhtArcRange::Empty,
                ArcInterval::Full => DhtArcRange::Full,
                ArcInterval::Bounded(lo, hi) => DhtArcRange::Bounded(
                    DhtLocation::new(*lo),
                    DhtLocation::new(*hi),
                ),
            },
        ).collect::<Vec<_>>(),
    )
}

/// `DhtArcSet::intersection`: the locations that both sets hold.
#[verifier::external_body]
pub(crate) fn arc_set_intersection(a: &DhtArcSet, b: &DhtArcSet) -> (set: DhtArcSet)
    ensures
        arc_set_locs(set) == arc_set_locs(*a).intersect(arc_set_locs(*b)),
{
    DhtArcSet::intersection(a, b)
}

/// `DhtArcSet::intervals`: the runs of the set, as `lists_runs` says. The
/// crate keeps its runs apart and in order, joins the run at the end of the
/// circle with the one at its start, and gives the whole circle as the full
/// interval.
#[verifier::external_body]
pub(crate) fn arc_set_intervals(set: &DhtArcSet) -> (ivs: Vec<ArcInterval>)
    ensures
        lists_runs(ivs@, arc_set_locs(*set)),
{
    set.intervals().into_iter().map(
        |r| match r {
            DhtArcRange::Empty => ArcInterval::Empty,
            DhtArcRange::Full => ArcInterval::Full,
            DhtArcRange::Bounded(lo, hi) => ArcInterval::Bounded(lo.as_u32(), hi.as_u32()),
        },
    ).collect()
}

/// `DhtArcRange::to_ascii`: the bar of the interval, named by `ascii_bar`. The
/// crate places the ends of the interval with floating point and takes the
/// remainder by `len`, so `len` is not 0 and each end falls below `len`;
/// whatever comes of that, it joins runs of `-` and of blanks that make `len`
/// characters.
#[verifier::external_body]
pub(crate) fn interval_to_ascii(iv: &ArcInterval, len: usize) -> (bar: String)
    requires
        len > 0,
    ensures
        bar@ == ascii_bar(*iv, len),
        bar@.len() == len,
        forall|i: int| 0 <= i < bar@.len() ==> #[trigger] bar@[i] == '-' || bar@[i] == ' ',
{
    match iv {
        ArcInterval::Empty => DhtArcRange::Empty,
        ArcInterval::Full => DhtArcRange::Full,
        ArcInterval::Bounded(lo, hi) => DhtArcRange::Bounded(
            DhtLocation::new(*lo),
            DhtLocation::new(*hi),
        ),
    }.to_ascii(len)
}

} // verus!
