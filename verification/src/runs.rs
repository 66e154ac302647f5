//! The runs of a set of locations: there is one list of them.

use vstd::prelude::*;
use crate::interval::all_locs;
use crate::interval::pred_loc;
use crate::interval::succ_loc;
use crate::interval::union_points;
use crate::interval::ArcInterval;
use crate::raw::lists_runs;
use crate::raw::widened;

verus! {

/// The runs of a list, each widened.
pub open spec fn widened_runs(ivs: Seq<ArcInterval>) -> Seq<ArcInterval> {
    ivs.map_values(|iv: ArcInterval| widened(iv))
}

/// The first location of a bounded interval.
pub open spec fn lower(iv: ArcInterval) -> int {
    match iv {
        ArcInterval::Bounded(lo, _) => lo as int,
        _ => -1,
    }
}

/// The ends of a run are in the set, and the run is a part of the set.
pub proof fn lemma_run_in_set(ivs: Seq<ArcInterval>, t: Set<int>, j: int)
    requires
        lists_runs(ivs, t),
        t != all_locs(),
        0 <= j < ivs.len(),
    ensures
        widened(ivs[j]) matches ArcInterval::Bounded(lo, hi) && t.contains(lo as int) && t.contains(
            hi as int,
        ),
        ivs[j] is Bounded,
        lower(ivs[j]) == lower(widened(ivs[j])),
        forall|x: int| widened(ivs[j]).contains(x) ==> t.contains(x),
{
    let wide = widened_runs(ivs);
    assert(wide[j] == widened(ivs[j]));
    match widened(ivs[j]) {
        ArcInterval::Bounded(lo, hi) => {
            assert(wide[j].contains(lo as int));
            assert(wide[j].contains(hi as int));
            assert(union_points(wide).contains(lo as int));
            assert(union_points(wide).contains(hi as int));
        },
        _ => {},
    }
    assert forall|x: int| widened(ivs[j]).contains(x) implies t.contains(x) by {
        assert(wide[j].contains(x));
        assert(union_points(wide).contains(x));
    }
}

/// A set without locations has no run.
pub proof fn lemma_runs_of_nothing(ivs: Seq<ArcInterval>, t: Set<int>)
    requires
        lists_runs(ivs, t),
        t == Set::<int>::empty(),
    ensures
        ivs.len() == 0,
{
    assert(all_locs().contains(0));
    assert(t != all_locs());
    if ivs.len() > 0 {
        lemma_run_in_set(ivs, t, 0);
    }
}

/// A location of the set whose neighbour before it is outside the set starts
/// a run.
proof fn lemma_start_is_lower(ivs: Seq<ArcInterval>, t: Set<int>, x: int)
    requires
        lists_runs(ivs, t),
        t != all_locs(),
        t.contains(x),
        !t.contains(pred_loc(x)),
    ensures
        exists|j: int| 0 <= j < ivs.len() && lower(#[trigger] ivs[j]) == x,
{
    let wide = widened_runs(ivs);
    assert(union_points(wide).contains(x));
    let j = choose|j: int| 0 <= j < wide.len() && (#[trigger] wide[j]).contains(x);
    lemma_run_in_set(ivs, t, j);
    assert(wide[j] == widened(ivs[j]));
    if lower(ivs[j]) != x {
        assert(wide[j].contains(pred_loc(x)));
        assert(t.contains(pred_loc(x)));
    }
    assert(lower(ivs[j]) == x);
}

/// Runs are listed in ascending order of their first locations.
proof fn lemma_lowers_ascend(ivs: Seq<ArcInterval>, t: Set<int>, i: int, j: int)
    requires
        lists_runs(ivs, t),
        t != all_locs(),
        0 <= i < j < ivs.len(),
    ensures
        lower(ivs[i]) < lower(ivs[j]),
{
    assert(ivs[i] is Bounded && ivs[j] is Bounded);
}

/// Two lists of the runs of one set have the same first locations, as far as
/// both go.
proof fn lemma_lowers_agree(a: Seq<ArcInterval>, b: Seq<ArcInterval>, t: Set<int>, i: int)
    requires
        lists_runs(a, t),
        lists_runs(b, t),
        t != all_locs(),
        0 <= i < a.len(),
        0 <= i < b.len(),
    ensures
        lower(a[i]) == lower(b[i]),
    decreases i,
{
    assert forall|k: int| 0 <= k < i implies lower(#[trigger] a[k]) == lower(b[k]) by {
        lemma_lowers_agree(a, b, t, k);
    }
    lemma_run_in_set(a, t, i);
    lemma_run_in_set(b, t, i);
    let x = lower(a[i]);
    let y = lower(b[i]);
    lemma_start_is_lower(b, t, x);
    let k = choose|k: int| 0 <= k < b.len() && lower(#[trigger] b[k]) == x;
    if k < i {
        lemma_lowers_ascend(a, t, k, i);
        assert(lower(a[k]) == lower(b[k]));
    }
    if k > i {
        lemma_lowers_ascend(b, t, i, k);
    }
    lemma_start_is_lower(a, t, y);
    let m = choose|m: int| 0 <= m < a.len() && lower(#[trigger] a[m]) == y;
    if m < i {
        lemma_lowers_ascend(b, t, m, i);
        assert(lower(a[m]) == lower(b[m]));
    }
    if m > i {
        lemma_lowers_ascend(a, t, i, m);
    }
}

/// No list of the runs of a set is longer than another.
proof fn lemma_no_longer(a: Seq<ArcInterval>, b: Seq<ArcInterval>, t: Set<int>)
    requires
        lists_runs(a, t),
        lists_runs(b, t),
        t != all_locs(),
    ensures
        a.len() <= b.len(),
{
    if a.len() > b.len() {
        let m = b.len() as int;
        lemma_run_in_set(a, t, m);
        lemma_start_is_lower(b, t, lower(a[m]));
        let k = choose|k: int| 0 <= k < b.len() && lower(#[trigger] b[k]) == lower(a[m]);
        lemma_lowers_agree(a, b, t, k);
        lemma_lowers_ascend(a, t, k, m);
    }
}

/// There is one list of the runs of a set: two lists agree run by run, once
/// each run is widened.
pub proof fn lemma_runs_unique(a: Seq<ArcInterval>, b: Seq<ArcInterval>, t: Set<int>)
    requires
        lists_runs(a, t),
        lists_runs(b, t),
    ensures
        widened_runs(a) == widened_runs(b),
{
    if t == all_locs() {
        assert(widened_runs(a) =~= widened_runs(b));
    } else {
        lemma_no_longer(a, b, t);
        lemma_no_longer(b, a, t);
        assert forall|i: int| 0 <= i < a.len() implies widened(#[trigger] a[i]) == widened(
            b[i],
        ) by {
            lemma_lowers_agree(a, b, t, i);
            lemma_run_in_set(a, t, i);
            lemma_run_in_set(b, t, i);
            let wa = widened(a[i]);
            let wb = widened(b[i]);
            match (wa, wb) {
                (ArcInterval::Bounded(lo, h1), ArcInterval::Bounded(lo2, h2)) => {
                    assert(lo == lo2);
                    if h1 != h2 {
                        assert(wb.contains(succ_loc(h1 as int)) || wa.contains(succ_loc(h2 as int)));
                    }
                },
                _ => {},
            }
        }
        assert(widened_runs(a) =~= widened_runs(b));
    }
}

/// The runs of the locations of one interval that is not the whole circle
/// are that interval alone. The interval does not end at the location before
/// the last: no set of runs does.
pub proof fn lemma_runs_of_interval(ivs: Seq<ArcInterval>, lo: u32, hi: u32)
    requires
        lists_runs(ivs, ArcInterval::Bounded(lo, hi).points()),
        succ_loc(hi as int) != lo,
        hi != u32::MAX - 1,
    ensures
        widened_runs(ivs) == seq![ArcInterval::Bounded(lo, hi)],
{
    let iv = ArcInterval::Bounded(lo, hi);
    let t = iv.points();
    let kept = if hi == u32::MAX {
        ArcInterval::Bounded(lo, (u32::MAX - 1) as u32)
    } else {
        iv
    };
    let one = seq![kept];
    assert(widened(kept) == iv);
    assert(widened_runs(one) =~= seq![iv]);
    assert(!t.contains(pred_loc(lo as int)));
    assert(!t.contains(succ_loc(hi as int)));
    assert(t != all_locs()) by {
        assert(all_locs().contains(pred_loc(lo as int)));
    }
    assert(t =~= union_points(widened_runs(one))) by {
        assert forall|x: int| t.contains(x) implies union_points(widened_runs(one)).contains(
            x,
        ) by {
            assert(widened_runs(one)[0].contains(x));
        }
    }
    assert(lists_runs(one, t));
    lemma_runs_unique(ivs, one, t);
}

} // verus!
