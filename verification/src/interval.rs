//! Raw intervals of locations on the circle, and sets of locations.

use vstd::prelude::*;
use crate::raw::widened;
use crate::topology::FULL_LEN;

verus! {

/// A run of locations on the circle of `2^32` locations.
///
/// `Bounded(lo, hi)` holds both ends. Where `lo > hi` it runs from `lo` up to
/// the last location and on from location 0 to `hi`.
#[derive(Clone, Copy, Debug, PartialEq, Eq, Structural)]
pub enum ArcInterval {
    Empty,
    Full,
    Bounded(u32, u32),
}

impl ArcInterval {
    /// Whether location `x` lies in the interval.
    pub open spec fn contains(self, x: int) -> bool {
        &&& 0 <= x < FULL_LEN
        &&& match self {
            ArcInterval::Empty => false,
            ArcInterval::Full => true,
            ArcInterval::Bounded(lo, hi) => if lo <= hi {
                lo <= x <= hi
            } else {
                x >= lo || x <= hi
            },
        }
    }

    /// The locations of the interval.
    pub open spec fn points(self) -> Set<int> {
        Set::new(|x: int| self.contains(x))
    }

    /// Number of locations in the interval.
    pub open spec fn len(self) -> nat {
        match self {
            ArcInterval::Empty => 0,
            ArcInterval::Full => FULL_LEN as nat,
            ArcInterval::Bounded(lo, hi) => if lo <= hi {
                (hi - lo + 1) as nat
            } else {
                (FULL_LEN - lo + hi + 1) as nat
            },
        }
    }

    /// Both ends sit on multiples of `s`: the interval is made of whole
    /// chunks of `s` locations.
    pub open spec fn aligned(self, s: nat) -> bool {
        match self {
            ArcInterval::Bounded(lo, hi) => lo as nat % s == 0 && (hi + 1) as nat % s == 0,
            _ => true,
        }
    }

    /// The interval with an end at the location before the last moved to the
    /// last location.
    pub fn widen(self) -> (r: Self)
        ensures
            r == widened(self),
    {
        match self {
            ArcInterval::Bounded(lo, hi) => {
                if hi == u32::MAX - 1 {
                    ArcInterval::Bounded(lo, u32::MAX)
                } else {
                    self
                }
            },
            _ => self,
        }
    }

    /// Number of locations in the interval.
    pub fn length(&self) -> (n: u64)
        ensures
            n == self.len(),
    {
        match self {
            ArcInterval::Empty => 0,
            ArcInterval::Full => FULL_LEN,
            ArcInterval::Bounded(lo, hi) => {
                if *lo <= *hi {
                    (*hi - *lo) as u64 + 1
                } else {
                    FULL_LEN - (*lo as u64) + (*hi as u64) + 1
                }
            },
        }
    }
}

/// The location before `x` on the circle.
pub open spec fn pred_loc(x: int) -> int {
    if x == 0 {
        FULL_LEN - 1
    } else {
        x - 1
    }
}

/// The location after `x` on the circle.
pub open spec fn succ_loc(x: int) -> int {
    if x == FULL_LEN - 1 {
        0
    } else {
        x + 1
    }
}

/// The locations that at least one of the intervals holds.
pub open spec fn union_points(ivs: Seq<ArcInterval>) -> Set<int> {
    Set::new(|x: int| exists|i: int| 0 <= i < ivs.len() && (#[trigger] ivs[i]).contains(x))
}

/// The whole circle.
pub open spec fn all_locs() -> Set<int> {
    Set::new(|x: int| 0 <= x < FULL_LEN)
}

/// A set of locations made of whole chunks of `s` locations: two locations of
/// one chunk are both in it or both out.
pub open spec fn saturated(t: Set<int>, s: nat) -> bool {
    forall|x: int, y: int|
        0 <= x < FULL_LEN && 0 <= y < FULL_LEN && x / (s as int) == y / (s as int) ==> (
        #[trigger] t.contains(x) <==> #[trigger] t.contains(y))
}

/// Division by `s` tells on which side of a multiple of `s` a number lies.
pub proof fn lemma_div_splits(x: int, m: int, s: int)
    requires
        s > 0,
        0 <= x,
        0 <= m,
        m % s == 0,
    ensures
        x >= m <==> x / s >= m / s,
{
    assert(x >= m <==> x / s >= m / s) by (nonlinear_arith)
        requires
            s > 0,
            0 <= x,
            0 <= m,
            m % s == 0,
    ;
}

/// An interval made of whole chunks is a set made of whole chunks.
pub proof fn lemma_aligned_is_saturated(iv: ArcInterval, s: nat)
    requires
        s > 0,
        iv.aligned(s),
    ensures
        saturated(iv.points(), s),
{
    match iv {
        ArcInterval::Bounded(lo, hi) => {
            assert forall|x: int, y: int|
                0 <= x < FULL_LEN && 0 <= y < FULL_LEN && x / (s as int) == y / (s as int) implies (
                #[trigger] iv.points().contains(x) <==> #[trigger] iv.points().contains(y)) by {
                lemma_div_splits(x, lo as int, s as int);
                lemma_div_splits(y, lo as int, s as int);
                lemma_div_splits(x, hi + 1, s as int);
                lemma_div_splits(y, hi + 1, s as int);
            }
        },
        _ => {},
    }
}

/// Where a set made of whole chunks begins, a chunk begins.
pub proof fn lemma_saturated_start(t: Set<int>, s: nat, x: int)
    requires
        s > 0,
        saturated(t, s),
        0 <= x < FULL_LEN,
        t.contains(x),
        !t.contains(pred_loc(x)),
    ensures
        x % (s as int) == 0,
{
    if x > 0 && x % (s as int) != 0 {
        assert((x - 1) / (s as int) == x / (s as int)) by (nonlinear_arith)
            requires
                s > 0,
                x > 0,
                x % (s as int) != 0,
        ;
        assert(t.contains(x - 1));
    }
}

/// Where a set made of whole chunks ends, a chunk ends.
pub proof fn lemma_saturated_end(t: Set<int>, s: nat, x: int)
    requires
        s > 0,
        FULL_LEN as int % (s as int) == 0,
        saturated(t, s),
        0 <= x < FULL_LEN,
        t.contains(x),
        !t.contains(succ_loc(x)),
    ensures
        (x + 1) % (s as int) == 0,
{
    if (x + 1) % (s as int) != 0 {
        assert((x + 1) / (s as int) == x / (s as int)) by (nonlinear_arith)
            requires
                s > 0,
                x >= 0,
                (x + 1) % (s as int) != 0,
        ;
        assert(x + 1 < FULL_LEN);
        assert(t.contains(x + 1));
    }
}

/// A union of intervals made of whole chunks is made of whole chunks.
pub proof fn lemma_union_saturated(ivs: Seq<ArcInterval>, s: nat)
    requires
        s > 0,
        forall|i: int| 0 <= i < ivs.len() ==> (#[trigger] ivs[i]).aligned(s),
    ensures
        saturated(union_points(ivs), s),
{
    let t = union_points(ivs);
    assert forall|x: int, y: int|
        0 <= x < FULL_LEN && 0 <= y < FULL_LEN && x / (s as int) == y / (s as int) implies (
        #[trigger] t.contains(x) <==> #[trigger] t.contains(y)) by {
        if t.contains(x) {
            let i = choose|i: int| 0 <= i < ivs.len() && (#[trigger] ivs[i]).contains(x);
            lemma_aligned_is_saturated(ivs[i], s);
            assert(ivs[i].points().contains(x));
            assert(ivs[i].points().contains(y));
        }
        if t.contains(y) {
            let i = choose|i: int| 0 <= i < ivs.len() && (#[trigger] ivs[i]).contains(y);
            lemma_aligned_is_saturated(ivs[i], s);
            assert(ivs[i].points().contains(y));
            assert(ivs[i].points().contains(x));
        }
    }
}

/// What lies in two sets made of whole chunks is made of whole chunks.
pub proof fn lemma_intersect_saturated(a: Set<int>, b: Set<int>, s: nat)
    requires
        saturated(a, s),
        saturated(b, s),
    ensures
        saturated(a.intersect(b), s),
{
    let t = a.intersect(b);
    assert forall|x: int, y: int|
        0 <= x < FULL_LEN && 0 <= y < FULL_LEN && x / (s as int) == y / (s as int) implies (
        #[trigger] t.contains(x) <==> #[trigger] t.contains(y)) by {
        assert(a.contains(x) <==> a.contains(y));
        assert(b.contains(x) <==> b.contains(y));
    }
}

/// A multiple of an even number is even.
pub proof fn lemma_even_multiple(x: int, d: int)
    requires
        d > 0,
        d % 2 == 0,
        x % d == 0,
    ensures
        x % 2 == 0,
{
    let k = x / d;
    let m = d / 2;
    assert(x == d * k) by (nonlinear_arith)
        requires
            d > 0,
            x % d == 0,
            k == x / d,
    ;
    assert(x == (m * k) * 2) by (nonlinear_arith)
        requires
            x == d * k,
            d == 2 * m,
    ;
    vstd::arithmetic::div_mod::lemma_mod_multiples_basic(m * k, 2);
}

/// An interval made of whole chunks of an even length neither starts at the
/// last location nor ends at the one before it.
pub proof fn lemma_aligned_even(iv: ArcInterval, s: nat)
    requires
        s >= 2,
        s % 2 == 0,
        iv.aligned(s),
    ensures
        crate::raw::kept_exactly(iv),
{
    match iv {
        ArcInterval::Bounded(lo, hi) => {
            lemma_even_multiple(lo as int, s as int);
            lemma_even_multiple(hi + 1, s as int);
        },
        _ => {},
    }
}

} // verus!
