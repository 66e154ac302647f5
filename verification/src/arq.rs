//! Quantized arcs: an offset, a power and a count.

use vstd::prelude::*;
use vstd::arithmetic::power2::pow2;
use crate::geometry::arc_interval;
use crate::geometry::interval_from_parts;
use crate::geometry::left_edge;
use crate::geometry::left_edge_from_parts;
use crate::geometry::lemma_grid;
use crate::geometry::lemma_left_edge;
use crate::geometry::lemma_start_chunk_bound;
use crate::geometry::requantize_count;
use crate::geometry::requantized_count;
use crate::interval::ArcInterval;
use crate::raw::ascii_bar;
use crate::raw::interval_to_ascii;
use crate::topology::two_pow;
use crate::topology::Dimension;
use crate::topology::Topology;
use crate::topology::FULL_LEN;

verus! {

/// What every quantized arc can do, whichever way it holds its start.
///
/// An arc is an offset in quanta, a power and a count. Its chunks are
/// `2^power` quanta long and it covers `count` of them, from the chunk that
/// holds the offset.
pub trait ArqBounded: Sized + Copy {
    /// The offset of the arc, in quanta.
    spec fn offset_spec(&self) -> u32;

    /// The power of the arc: its chunks are `2^power` quanta long.
    spec fn power_spec(&self) -> u8;

    /// The number of chunks of the arc.
    spec fn count_spec(&self) -> u32;

    /// The arc at another power, where its covered length can be kept.
    spec fn requantize_spec(&self, power: u8) -> Option<Self>;

    /// Two arcs of one kind with the same offset, power and count are one arc.
    proof fn lemma_same_parts(&self, other: &Self)
        requires
            self.offset_spec() == other.offset_spec(),
            self.power_spec() == other.power_spec(),
            self.count_spec() == other.count_spec(),
        ensures
            *self == *other,
    ;

    /// Requantizing keeps the offset, sets the power and changes the count as
    /// `requantized_count` says; it fails exactly where that has no count.
    proof fn lemma_requantize_spec(&self, power: u8)
        ensures
            match requantized_count(self.power_spec(), self.count_spec(), power) {
                Some(c) => self.requantize_spec(power) matches Some(a) && a.offset_spec()
                    == self.offset_spec() && a.power_spec() == power && a.count_spec() == c,
                None => self.requantize_spec(power) is None,
            },
    ;

    /// The power of the arc.
    fn power(&self) -> (p: u8)
        ensures
            p == self.power_spec(),
    ;

    /// The number of chunks of the arc.
    fn count(&self) -> (c: u32)
        ensures
            c == self.count_spec(),
    ;

    /// The locations that the arc covers.
    fn to_interval(&self, topo: &Topology) -> (iv: ArcInterval)
        ensures
            iv == arc_interval(
                topo.space,
                self.offset_spec(),
                self.power_spec(),
                self.count_spec(),
            ),
    ;

    /// The arc with its start written out: the offset is the left edge.
    fn to_bounds(&self, topo: &Topology) -> (b: ArqBounds)
        ensures
            b.offset == left_edge(topo.space, self.offset_spec(), self.power_spec()),
            b.power == self.power_spec(),
            b.count == self.count_spec(),
            b.offset == left_edge(topo.space, b.offset, b.power),
            arc_interval(topo.space, b.offset, b.power, b.count) == arc_interval(
                topo.space,
                self.offset_spec(),
                self.power_spec(),
                self.count_spec(),
            ),
    ;

    /// The arc at another power, or `None` where its covered length cannot be
    /// kept: at a finer power the count is multiplied and must fit in 32
    /// bits, at a coarser power it is divided and must divide evenly. The
    /// offset stays.
    fn requantize(&self, power: u8) -> (r: Option<Self>)
        ensures
            r == self.requantize_spec(power),
            match requantized_count(self.power_spec(), self.count_spec(), power) {
                Some(c) => r matches Some(a) && a.offset_spec() == self.offset_spec()
                    && a.power_spec() == power && a.count_spec() == c,
                None => r is None,
            },
    ;

    /// A bar of `len` characters with the arc's share of the circle marked.
    fn to_ascii(&self, topo: &Topology, len: usize) -> (bar: String)
        requires
            len > 0,
        ensures
            bar@ == ascii_bar(
                arc_interval(
                    topo.space,
                    self.offset_spec(),
                    self.power_spec(),
                    self.count_spec(),
                ),
                len,
            ),
            bar@.len() == len,
            forall|i: int| 0 <= i < bar@.len() ==> #[trigger] bar@[i] == '-' || bar@[i] == ' ',
    ;
}

/// The interval of locations that an arc covers in a topology.
pub open spec fn interval_of<A: ArqBounded>(a: A, topo: Topology) -> ArcInterval {
    arc_interval(topo.space, a.offset_spec(), a.power_spec(), a.count_spec())
}

/// The covered length of an arc, in quanta.
pub open spec fn covered_len<A: ArqBounded>(a: A) -> nat {
    a.count_spec() as nat * pow2(a.power_spec() as nat)
}

/// An arc around a point of the circle: the offset is any coordinate, and the
/// arc starts with the chunk that holds it.
#[derive(Clone, Copy, Debug, PartialEq, Eq, Structural)]
pub struct Arq {
    pub offset: u32,
    pub power: u8,
    pub count: u32,
}

/// An arc with its start written out: the offset is meant to be the left
/// edge of the first chunk.
#[derive(Clone, Copy, Debug, PartialEq, Eq, Structural)]
pub struct ArqBounds {
    pub offset: u32,
    pub power: u8,
    pub count: u32,
}

impl Arq {
    /// The arc of `count` chunks of `2^power` quanta around `offset`.
    pub fn new(offset: u32, power: u8, count: u32) -> (a: Self)
        ensures
            a == (Arq { offset, power, count }),
    {
        Arq { offset, power, count }
    }
}

impl ArqBounded for Arq {
    open spec fn offset_spec(&self) -> u32 {
        self.offset
    }

    open spec fn power_spec(&self) -> u8 {
        self.power
    }

    open spec fn count_spec(&self) -> u32 {
        self.count
    }

    open spec fn requantize_spec(&self, power: u8) -> Option<Self> {
        match requantized_count(self.power, self.count, power) {
            Some(count) => Some(Arq { offset: self.offset, power, count }),
            None => None,
        }
    }

    proof fn lemma_same_parts(&self, other: &Self) {
    }

    proof fn lemma_requantize_spec(&self, power: u8) {
    }

    fn power(&self) -> (p: u8) {
        self.power
    }

    fn count(&self) -> (c: u32) {
        self.count
    }

    fn to_interval(&self, topo: &Topology) -> (iv: ArcInterval) {
        interval_from_parts(&topo.space, self.offset, self.power, self.count)
    }

    fn to_bounds(&self, topo: &Topology) -> (b: ArqBounds) {
        proof {
            use_type_invariant(&topo.space);
            lemma_left_edge(topo.space, self.offset, self.power);
        }
        ArqBounds {
            offset: left_edge_from_parts(&topo.space, self.offset, self.power),
            power: self.power,
            count: self.count,
        }
    }

    fn requantize(&self, power: u8) -> (r: Option<Self>) {
        match requantize_count(self.power, self.count, power) {
            Some(count) => Some(Arq { offset: self.offset, power, count }),
            None => None,
        }
    }

    fn to_ascii(&self, topo: &Topology, len: usize) -> (bar: String) {
        let iv = self.to_interval(topo);
        interval_to_ascii(&iv, len)
    }
}

impl ArqBounded for ArqBounds {
    open spec fn offset_spec(&self) -> u32 {
        self.offset
    }

    open spec fn power_spec(&self) -> u8 {
        self.power
    }

    open spec fn count_spec(&self) -> u32 {
        self.count
    }

    open spec fn requantize_spec(&self, power: u8) -> Option<Self> {
        match requantized_count(self.power, self.count, power) {
            Some(count) => Some(ArqBounds { offset: self.offset, power, count }),
            None => None,
        }
    }

    proof fn lemma_same_parts(&self, other: &Self) {
    }

    proof fn lemma_requantize_spec(&self, power: u8) {
    }

    fn power(&self) -> (p: u8) {
        self.power
    }

    fn count(&self) -> (c: u32) {
        self.count
    }

    fn to_interval(&self, topo: &Topology) -> (iv: ArcInterval) {
        interval_from_parts(&topo.space, self.offset, self.power, self.count)
    }

    fn to_bounds(&self, topo: &Topology) -> (b: ArqBounds) {
        proof {
            use_type_invariant(&topo.space);
            lemma_left_edge(topo.space, self.offset, self.power);
        }
        ArqBounds {
            offset: left_edge_from_parts(&topo.space, self.offset, self.power),
            power: self.power,
            count: self.count,
        }
    }

    fn requantize(&self, power: u8) -> (r: Option<Self>) {
        match requantize_count(self.power, self.count, power) {
            Some(count) => Some(ArqBounds { offset: self.offset, power, count }),
            None => None,
        }
    }

    fn to_ascii(&self, topo: &Topology, len: usize) -> (bar: String) {
        let iv = self.to_interval(topo);
        interval_to_ascii(&iv, len)
    }
}

/// The bounds that cover exactly the interval `iv` at `power`, where there
/// are any: the interval is made of whole chunks and their number fits.
pub open spec fn bounds_from_interval(dim: Dimension, power: u8, iv: ArcInterval) -> Option<
    ArqBounds,
> {
    let n = dim.chunk_count(power);
    let s = dim.chunk_len(power);
    match iv {
        ArcInterval::Empty => Some(ArqBounds { offset: 0, power, count: 0 }),
        ArcInterval::Full => if n <= u32::MAX {
            Some(ArqBounds { offset: 0, power, count: n as u32 })
        } else {
            None
        },
        ArcInterval::Bounded(lo, hi) => if iv.aligned(s) && iv.len() / s <= u32::MAX {
            Some(
                ArqBounds {
                    offset: (lo as nat / dim.quantum_len()) as u32,
                    power,
                    count: (iv.len() / s) as u32,
                },
            )
        } else {
            None
        },
    }
}

/// The count nearest to `len / s`, halves rounded up, and no more than fits.
pub open spec fn rounded_count(len: nat, s: nat) -> nat {
    let c = (len + s / 2) / s;
    if c <= u32::MAX {
        c
    } else {
        u32::MAX as nat
    }
}

/// The bounds at `power` nearest to the interval `iv`: from the chunk that
/// holds the interval's first location, over the nearest number of chunks.
pub open spec fn bounds_from_interval_rounded(dim: Dimension, power: u8, iv: ArcInterval) -> ArqBounds {
    let s = dim.chunk_len(power);
    match iv {
        ArcInterval::Empty => ArqBounds { offset: 0, power, count: 0 },
        ArcInterval::Full => ArqBounds { offset: 0, power, count: rounded_count(FULL_LEN as nat, s) as u32 },
        ArcInterval::Bounded(lo, hi) => ArqBounds {
            offset: left_edge(dim, (lo as nat / dim.quantum_len()) as u32, power) as u32,
            power,
            count: rounded_count(iv.len(), s) as u32,
        },
    }
}

impl ArqBounds {
    /// The offset is the left edge: a multiple of the chunk size, below the
    /// size of the space.
    pub open spec fn aligned(&self, dim: Dimension) -> bool {
        self.offset == left_edge(dim, self.offset, self.power)
    }

    /// The offset of the bounds, in quanta.
    pub fn offset(&self) -> (o: u32)
        ensures
            o == self.offset,
    {
        self.offset
    }

    /// The bounds that cover exactly `interval` at `power`, or `None` where
    /// the interval is not made of whole chunks or has too many to count.
    pub fn from_interval(topo: &Topology, power: u8, interval: ArcInterval) -> (r: Option<Self>)
        ensures
            r == bounds_from_interval(topo.space, power, interval),
    {
        let dim = &topo.space;
        let b = dim.bit_depth();
        let q = dim.quantum();
        proof {
            lemma_grid(*dim, power);
            dim.lemma_wf();
        }
        let e: u8 = if power <= b {
            32 - b + power
        } else {
            32
        };
        let s = two_pow(e);
        let n = two_pow(32 - e);
        match interval {
            ArcInterval::Empty => Some(ArqBounds { offset: 0, power, count: 0 }),
            ArcInterval::Full => {
                if n <= u32::MAX as u64 {
                    Some(ArqBounds { offset: 0, power, count: n as u32 })
                } else {
                    None
                }
            },
            ArcInterval::Bounded(lo, hi) => {
                let len = interval.length();
                let count = len / s;
                if lo as u64 % s == 0 && (hi as u64 + 1) % s == 0 && count <= u32::MAX as u64 {
                    Some(ArqBounds { offset: lo / q, power, count: count as u32 })
                } else {
                    None
                }
            },
        }
    }

    /// The bounds at `power` nearest to `interval`.
    pub fn from_interval_rounded(topo: &Topology, power: u8, interval: ArcInterval) -> (r: Self)
        ensures
            r == bounds_from_interval_rounded(topo.space, power, interval),
    {
        let dim = &topo.space;
        let b = dim.bit_depth();
        let q = dim.quantum();
        proof {
            lemma_grid(*dim, power);
            dim.lemma_wf();
        }
        let e: u8 = if power <= b {
            32 - b + power
        } else {
            32
        };
        let s = two_pow(e);
        let len = interval.length();
        let c = (len + s / 2) / s;
        let count: u32 = if c <= u32::MAX as u64 {
            c as u32
        } else {
            u32::MAX
        };
        match interval {
            ArcInterval::Empty => {
                assert((0 + s as int / 2) / (s as int) == 0) by (nonlinear_arith)
                    requires
                        s >= 1,
                ;
                ArqBounds { offset: 0, power, count: 0 }
            },
            ArcInterval::Full => ArqBounds { offset: 0, power, count },
            ArcInterval::Bounded(lo, hi) => {
                proof {
                    lemma_start_chunk_bound(*dim, (lo / q), power);
                }
                ArqBounds { offset: left_edge_from_parts(dim, lo / q, power), power, count }
            },
        }
    }
}

/// Whole numbers of chunks: what the ends of an aligned interval say of its
/// first chunk, its last chunk and its length.
proof fn lemma_aligned_chunks(lo: int, hi: int, s: int, n: int)
    requires
        s > 0,
        n > 0,
        s * n == FULL_LEN,
        0 <= lo < FULL_LEN,
        0 <= hi < FULL_LEN,
        lo % s == 0,
        (hi + 1) % s == 0,
    ensures
        ({
            let a = lo / s;
            let e = (hi + 1) / s;
            &&& 0 <= a < n
            &&& 1 <= e <= n
            &&& a * s == lo
            &&& e * s == hi + 1
            &&& (e - 1) * s + s - 1 == hi
            &&& lo <= hi ==> a < e && (hi - lo + 1) / s == e - a
            &&& lo > hi ==> e <= a && (FULL_LEN - lo + hi + 1) / s == n - a + e
        }),
{
    let a = lo / s;
    let e = (hi + 1) / s;
    assert(a * s == lo && e * s == hi + 1) by (nonlinear_arith)
        requires
            s > 0,
            lo % s == 0,
            (hi + 1) % s == 0,
            a == lo / s,
            e == (hi + 1) / s,
    ;
    assert(0 <= a < n && 1 <= e <= n) by (nonlinear_arith)
        requires
            s > 0,
            a * s == lo,
            e * s == hi + 1,
            0 <= lo < s * n,
            0 < hi + 1 <= s * n,
    ;
    assert((e - 1) * s + s - 1 == hi) by (nonlinear_arith)
        requires
            e * s == hi + 1,
    ;
    if lo <= hi {
        assert(a < e && (hi - lo + 1) / s == e - a) by (nonlinear_arith)
            requires
                s > 0,
                a * s == lo,
                e * s == hi + 1,
                lo <= hi,
        ;
    } else {
        assert(e <= a && (s * n - lo + hi + 1) / s == n - a + e) by (nonlinear_arith)
            requires
                s > 0,
                a * s == lo,
                e * s == hi + 1,
                lo > hi,
        ;
    }
}

/// The bounds that `bounds_from_interval` gives are at the power asked for,
/// start on their left edge and cover exactly the interval.
pub proof fn lemma_from_interval(dim: Dimension, power: u8, iv: ArcInterval)
    requires
        dim.wf(),
        bounds_from_interval(dim, power, iv) is Some,
    ensures
        ({
            let b = bounds_from_interval(dim, power, iv).unwrap();
            &&& b.power == power
            &&& b.aligned(dim)
            &&& arc_interval(dim, b.offset, b.power, b.count).points() == iv.points()
            &&& iv is Bounded ==> b.count > 0
            &&& iv is Bounded && b.count < dim.chunk_count(power) ==> arc_interval(
                dim,
                b.offset,
                b.power,
                b.count,
            ) == iv
        }),
{
    lemma_grid(dim, power);
    dim.lemma_wf();
    let b = bounds_from_interval(dim, power, iv).unwrap();
    let n = dim.chunk_count(power) as int;
    let s = dim.chunk_len(power) as int;
    let q = dim.quantum_len() as int;
    lemma_start_chunk_bound(dim, b.offset, power);
    let got = arc_interval(dim, b.offset, b.power, b.count);
    match iv {
        ArcInterval::Empty => {
            assert(got.points() =~= iv.points());
        },
        ArcInterval::Full => {
            assert(got.points() =~= iv.points());
        },
        ArcInterval::Bounded(lo, hi) => {
            lemma_aligned_chunks(lo as int, hi as int, s, n);
            let a = lo as int / s;
            let e = (hi + 1) / s;
            let first = crate::geometry::start_chunk(dim, b.offset, power) as int;
            if power < dim.depth() {
                let c = pow2(power as nat) as int;
                let size = dim.size() as int;
                assert(c > 0 && q > 0 && size > 0) by (nonlinear_arith)
                    requires
                        q * c == s,
                        s > 0,
                        q >= 0,
                        c >= 0,
                        n * c == size,
                        n > 0,
                ;
                assert(lo as int / q == a * c && (a * c) % size == a * c && (a * c) / c == a)
                    by (nonlinear_arith)
                    requires
                        q > 0,
                        c > 0,
                        q * c == s,
                        a * s == lo,
                        0 <= a < n,
                        n * c == size,
                ;
                assert(first == a);
                assert(b.offset == a * c);
            } else {
                assert(n == 1);
                assert(a == 0);
                assert(lo == 0) by (nonlinear_arith)
                    requires
                        a == 0,
                        a * s == lo,
                ;
                assert(lo as int / q == 0) by (nonlinear_arith)
                    requires
                        lo == 0,
                        q > 0,
                ;
                assert(first == 0);
            }
            assert(first == a);
            if b.count >= n {
                assert(got == ArcInterval::Full);
                if lo <= hi {
                    assert(b.count == e - a);
                    assert(lo == 0 && hi == FULL_LEN - 1) by (nonlinear_arith)
                        requires
                            a == 0,
                            e == n,
                            a * s == lo,
                            e * s == hi + 1,
                            s * n == FULL_LEN,
                    ;
                } else {
                    assert(b.count == n - a + e);
                    assert(hi + 1 == lo) by (nonlinear_arith)
                        requires
                            e == a,
                            a * s == lo,
                            e * s == hi + 1,
                    ;
                }
                assert(got.points() =~= iv.points());
            } else {
                let last = (first + b.count - 1) % n;
                if lo <= hi {
                    assert(first + b.count - 1 == e - 1);
                    assert(last == e - 1) by (nonlinear_arith)
                        requires
                            last == (e - 1) % n,
                            0 <= e - 1 < n,
                    ;
                } else {
                    assert(first + b.count - 1 == n + (e - 1));
                    assert(last == e - 1) by (nonlinear_arith)
                        requires
                            last == (n + (e - 1)) % n,
                            0 <= e - 1 < n,
                    ;
                }
                assert(got == iv);
            }
        },
    }
}

} // verus!
