//! Where an arc lies: from offset, power and count to locations and back.

use vstd::prelude::*;
use vstd::arithmetic::power2::pow2;
use vstd::arithmetic::power2::lemma_pow2_adds;
use vstd::arithmetic::power2::lemma_pow2_pos;
use vstd::arithmetic::power2::lemma_pow2_strictly_increases;
use vstd::arithmetic::power2::lemma2_to64;
use crate::interval::ArcInterval;
use crate::topology::Dimension;
use crate::topology::FULL_LEN;
use crate::topology::two_pow;
use crate::topology::lemma_pow2_split;

verus! {

/// Index of the chunk in which an arc at `offset` starts. An offset is taken
/// modulo the size of the space and need not sit on a chunk's edge: the arc
/// starts with the chunk that holds it.
pub open spec fn start_chunk(dim: Dimension, offset: u32, power: u8) -> nat {
    if power >= dim.depth() {
        0
    } else {
        (offset as nat % dim.size()) / pow2(power as nat)
    }
}

/// The left edge of an arc, in quanta: the start of its first chunk.
pub open spec fn left_edge(dim: Dimension, offset: u32, power: u8) -> nat {
    if power >= dim.depth() {
        0
    } else {
        start_chunk(dim, offset, power) * pow2(power as nat)
    }
}

/// The locations that an arc of `count` chunks of `2^power` quanta covers.
///
/// No chunk gives the empty interval; as many chunks as the circle has, or
/// more, give the full one. Otherwise the arc runs over `count` chunks from
/// its first, past the end of the circle where it must.
pub open spec fn arc_interval(dim: Dimension, offset: u32, power: u8, count: u32) -> ArcInterval {
    let n = dim.chunk_count(power);
    let s = dim.chunk_len(power);
    let first = start_chunk(dim, offset, power);
    let last = ((first + count - 1) as nat) % n;
    if count == 0 {
        ArcInterval::Empty
    } else if count >= n {
        ArcInterval::Full
    } else {
        ArcInterval::Bounded((first * s) as u32, (last * s + s - 1) as u32)
    }
}

/// The count that keeps the covered length when the power changes, where
/// there is one: finer chunks multiply the count, and it must still fit;
/// coarser chunks divide it, and it must divide evenly.
pub open spec fn requantized_count(power: u8, count: u32, new_power: u8) -> Option<u32> {
    if new_power <= power {
        let c = count * pow2((power - new_power) as nat);
        if c <= u32::MAX {
            Some(c as u32)
        } else {
            None
        }
    } else {
        let f = pow2((new_power - power) as nat);
        if count as nat % f == 0 {
            Some((count as nat / f) as u32)
        } else {
            None
        }
    }
}

/// Facts on the grid of chunks at one power.
pub proof fn lemma_grid(dim: Dimension, power: u8)
    requires
        dim.wf(),
    ensures
        dim.chunk_exp(power) <= 32,
        dim.chunk_len(power) * dim.chunk_count(power) == FULL_LEN,
        1 <= dim.chunk_len(power) <= FULL_LEN,
        1 <= dim.chunk_count(power) <= FULL_LEN,
        FULL_LEN as int % (dim.chunk_len(power) as int) == 0,
        power < dim.depth() ==> dim.chunk_len(power) == dim.quantum_len() * pow2(power as nat),
        power < dim.depth() ==> dim.chunk_count(power) * pow2(power as nat) == dim.size(),
        power < dim.depth() ==> dim.chunk_count(power) >= 2,
        power >= dim.depth() ==> dim.chunk_count(power) == 1,
        dim.chunk_len(power) >= 2 <==> !(dim.depth() == 32 && power == 0),
{
    dim.lemma_wf();
    let e = dim.chunk_exp(power);
    lemma_pow2_split(e);
    lemma_pow2_split((32 - e) as nat);
    lemma2_to64();
    let s = dim.chunk_len(power) as int;
    let n = dim.chunk_count(power) as int;
    assert((s * n) % s == 0) by (nonlinear_arith)
        requires
            s > 0,
    ;
    if power < dim.depth() {
        lemma_pow2_adds((32 - dim.depth()) as nat, power as nat);
        lemma_pow2_adds((dim.depth() - power) as nat, power as nat);
        lemma_pow2_strictly_increases(0, (dim.depth() - power) as nat);
    }
    if e >= 1 {
        lemma_pow2_strictly_increases(0, e);
    }
}

/// An arc's interval is made of whole chunks at the arc's power.
pub proof fn lemma_arc_interval_aligned(dim: Dimension, offset: u32, power: u8, count: u32)
    requires
        dim.wf(),
    ensures
        arc_interval(dim, offset, power, count).aligned(dim.chunk_len(power)),
{
    lemma_grid(dim, power);
    let n = dim.chunk_count(power) as int;
    let s = dim.chunk_len(power) as int;
    let first = start_chunk(dim, offset, power) as int;
    let last = (first + count - 1) % n;
    if count != 0 && count < n {
        lemma_start_chunk_bound(dim, offset, power);
        assert(0 <= last < n);
        assert(0 <= first * s <= FULL_LEN - s && (first * s) % s == 0) by (nonlinear_arith)
            requires
                0 <= first < n,
                s > 0,
                s * n == FULL_LEN,
        ;
        assert(0 <= last * s <= FULL_LEN - s && (last * s + s) % s == 0) by (nonlinear_arith)
            requires
                0 <= last < n,
                s > 0,
                s * n == FULL_LEN,
        ;
    }
}

/// An arc starts in one of the chunks of the circle.
pub proof fn lemma_start_chunk_bound(dim: Dimension, offset: u32, power: u8)
    requires
        dim.wf(),
    ensures
        start_chunk(dim, offset, power) < dim.chunk_count(power),
        left_edge(dim, offset, power) < dim.size(),
        left_edge(dim, offset, power) <= offset,
        power < dim.depth() ==> left_edge(dim, offset, power) % pow2(power as nat) == 0,
{
    lemma_grid(dim, power);
    dim.lemma_wf();
    if power < dim.depth() {
        let size = dim.size() as int;
        let c = pow2(power as nat) as int;
        let n = dim.chunk_count(power) as int;
        let o = offset as int % size;
        lemma_pow2_pos(power as nat);
        assert(offset as int % size <= offset) by (nonlinear_arith)
            requires
                size > 0,
                offset >= 0,
        ;
        assert(0 <= o / c < n && 0 <= (o / c) * c <= o && ((o / c) * c) % c == 0) by (nonlinear_arith)
            requires
                0 <= o < size,
                c > 0,
                n * c == size,
        ;
    }
}

/// An arc moved to its left edge is the same arc: it starts in the same
/// chunk, so it covers the same locations, and its left edge stays.
pub proof fn lemma_left_edge(dim: Dimension, offset: u32, power: u8)
    requires
        dim.wf(),
    ensures
        left_edge(dim, offset, power) <= u32::MAX,
        start_chunk(dim, left_edge(dim, offset, power) as u32, power) == start_chunk(
            dim,
            offset,
            power,
        ),
        left_edge(dim, left_edge(dim, offset, power) as u32, power) == left_edge(
            dim,
            offset,
            power,
        ),
        forall|count: u32| #[trigger]
            arc_interval(dim, left_edge(dim, offset, power) as u32, power, count) == arc_interval(
                dim,
                offset,
                power,
                count,
            ),
{
    lemma_start_chunk_bound(dim, offset, power);
    lemma_grid(dim, power);
    if power < dim.depth() {
        let size = dim.size() as int;
        let c = pow2(power as nat) as int;
        let n = dim.chunk_count(power) as int;
        let k = start_chunk(dim, offset, power) as int;
        lemma_pow2_pos(power as nat);
        assert((k * c) % size == k * c && (k * c) / c == k) by (nonlinear_arith)
            requires
                0 <= k < n,
                c > 0,
                n * c == size,
        ;
    }
}

/// The interval that an arc covers.
pub fn interval_from_parts(dim: &Dimension, offset: u32, power: u8, count: u32) -> (iv:
    ArcInterval)
    ensures
        iv == arc_interval(*dim, offset, power, count),
{
    let b = dim.bit_depth();
    proof {
        lemma_grid(*dim, power);
        lemma_start_chunk_bound(*dim, offset, power);
        lemma_arc_interval_aligned(*dim, offset, power, count);
    }
    if count == 0 {
        ArcInterval::Empty
    } else if power >= b {
        ArcInterval::Full
    } else {
        let n = two_pow(b - power);
        if count as u64 >= n {
            ArcInterval::Full
        } else {
            let s = two_pow(32 - b + power);
            let size = two_pow(b);
            let c = two_pow(power);
            let first = (offset as u64 % size) / c;
            let last = (first + (count as u64 - 1)) % n;
            assert(first * s <= FULL_LEN - s && last * s <= FULL_LEN - s) by (nonlinear_arith)
                requires
                    0 <= first < n,
                    0 <= last < n,
                    s > 0,
                    s * n == FULL_LEN,
            ;
            ArcInterval::Bounded((first * s) as u32, (last * s + (s - 1)) as u32)
        }
    }
}

/// The left edge of an arc, in quanta.
pub fn left_edge_from_parts(dim: &Dimension, offset: u32, power: u8) -> (edge: u32)
    ensures
        edge == left_edge(*dim, offset, power),
{
    let b = dim.bit_depth();
    proof {
        lemma_start_chunk_bound(*dim, offset, power);
        dim.lemma_wf();
        lemma_pow2_pos(power as nat);
    }
    if power >= b {
        0
    } else {
        let size = two_pow(b);
        let c = two_pow(power);
        let o = offset as u64 % size;
        assert((o / c) * c <= o) by (nonlinear_arith)
            requires
                o >= 0,
                c > 0,
        ;
        ((o / c) * c) as u32
    }
}

/// The count of an arc at another power, where the covered length can be
/// kept.
pub fn requantize_count(power: u8, count: u32, new_power: u8) -> (r: Option<u32>)
    ensures
        r == requantized_count(power, count, new_power),
{
    proof {
        lemma2_to64();
    }
    if new_power <= power {
        let d = power - new_power;
        if count == 0 {
            assert(0 * pow2(d as nat) == 0) by (nonlinear_arith);
            Some(0)
        } else if d >= 32 {
            proof {
                if d > 32 {
                    lemma_pow2_strictly_increases(32, d as nat);
                }
                assert(count * pow2(d as nat) >= 0x1_0000_0000) by (nonlinear_arith)
                    requires
                        count >= 1,
                        pow2(d as nat) >= 0x1_0000_0000,
                ;
            }
            None
        } else {
            let f = two_pow(d);
            proof {
                lemma_pow2_strictly_increases(d as nat, 32);
            }
            assert(count * f < 0x1_0000_0000 * 0x1_0000_0000) by (nonlinear_arith)
                requires
                    count < 0x1_0000_0000,
                    f < 0x1_0000_0000,
            ;
            let c = count as u64 * f;
            if c <= u32::MAX as u64 {
                Some(c as u32)
            } else {
                None
            }
        }
    } else {
        let d = new_power - power;
        if d >= 32 {
            proof {
                if d > 32 {
                    lemma_pow2_strictly_increases(32, d as nat);
                }
                let f = pow2(d as nat) as int;
                assert(count as int % f == count as int && count as int / f == 0)
                    by (nonlinear_arith)
                    requires
                        0 <= count < f,
                ;
            }
            if count == 0 {
                Some(0)
            } else {
                None
            }
        } else {
            let f = two_pow(d);
            if count as u64 % f == 0 {
                Some((count as u64 / f) as u32)
            } else {
                None
            }
        }
    }
}

/// A requantized count keeps the covered length, and an arc keeps its count
/// at its own power.
pub proof fn lemma_requantized_count(power: u8, count: u32, new_power: u8)
    ensures
        requantized_count(power, count, power) == Some(count),
        requantized_count(power, count, new_power) matches Some(c) ==> c * pow2(new_power as nat)
            == count * pow2(power as nat),
{
    lemma2_to64();
    assert(count * pow2(0) == count) by (nonlinear_arith)
        requires
            pow2(0) == 1,
    ;
    if let Some(c) = requantized_count(power, count, new_power) {
        if new_power <= power {
            let f = pow2((power - new_power) as nat) as int;
            let g = pow2(new_power as nat) as int;
            lemma_pow2_adds((power - new_power) as nat, new_power as nat);
            assert((count * f) * g == count * (f * g)) by (nonlinear_arith);
        } else {
            let f = pow2((new_power - power) as nat) as int;
            let g = pow2(power as nat) as int;
            lemma_pow2_adds((new_power - power) as nat, power as nat);
            lemma_pow2_pos((new_power - power) as nat);
            assert((count as int / f) * (f * g) == count * g) by (nonlinear_arith)
                requires
                    f > 0,
                    count as int % f == 0,
            ;
        }
    }
}

/// The remainder of `m * f + r` by `n * f`, for a remainder `r` below `f`.
proof fn lemma_mod_scaled(m: int, r: int, n: int, f: int)
    requires
        m >= 0,
        n > 0,
        f > 0,
        0 <= r < f,
    ensures
        (m * f + r) % (n * f) == (m % n) * f + r,
{
    let q = m / n;
    let k = m % n;
    assert(m == q * n + k && 0 <= k < n) by (nonlinear_arith)
        requires
            n > 0,
            q == m / n,
            k == m % n,
    ;
    assert(m * f + r == q * (n * f) + (k * f + r)) by (nonlinear_arith)
        requires
            m == q * n + k,
    ;
    assert(0 <= k * f + r < n * f) by (nonlinear_arith)
        requires
            0 <= k < n,
            0 <= r < f,
    ;
    vstd::arithmetic::div_mod::lemma_fundamental_div_mod_converse(
        m * f + r,
        n * f,
        q,
        k * f + r,
    );
}

/// An arc that starts on its left edge covers the same locations at every
/// finer power, and starts on its left edge there too.
pub proof fn lemma_refined_interval(
    dim: Dimension,
    offset: u32,
    power: u8,
    count: u32,
    new_power: u8,
)
    requires
        dim.wf(),
        new_power <= power,
        left_edge(dim, offset, power) == offset,
        requantized_count(power, count, new_power) is Some,
    ensures
        arc_interval(
            dim,
            offset,
            new_power,
            requantized_count(power, count, new_power).unwrap(),
        ) == arc_interval(dim, offset, power, count),
        left_edge(dim, offset, new_power) == offset,
{
    lemma_grid(dim, power);
    lemma_grid(dim, new_power);
    lemma_start_chunk_bound(dim, offset, power);
    lemma_start_chunk_bound(dim, offset, new_power);
    dim.lemma_wf();
    let fine = requantized_count(power, count, new_power).unwrap() as int;
    let f = pow2((power - new_power) as nat) as int;
    lemma_pow2_pos((power - new_power) as nat);
    assert(fine == count * f);
    assert(count * f >= count && (count == 0 ==> count * f == 0)) by (nonlinear_arith)
        requires
            f >= 1,
            count >= 0,
    ;
    let b = dim.depth();
    if power >= b {
        assert(offset == 0);
        if new_power < b && count > 0 {
            let n2 = dim.chunk_count(new_power) as int;
            lemma_pow2_increases((b - new_power) as nat, (power - new_power) as nat);
            assert(n2 <= f);
            assert(count * f >= f) by (nonlinear_arith)
                requires
                    count >= 1,
                    f >= 1,
            ;
        }
    } else {
        let c1 = pow2(power as nat) as int;
        let c2 = pow2(new_power as nat) as int;
        let n1 = dim.chunk_count(power) as int;
        let n2 = dim.chunk_count(new_power) as int;
        let s1 = dim.chunk_len(power) as int;
        let s2 = dim.chunk_len(new_power) as int;
        let q = dim.quantum_len() as int;
        let size = dim.size() as int;
        let k1 = start_chunk(dim, offset, power) as int;
        let k2 = start_chunk(dim, offset, new_power) as int;
        lemma_pow2_adds((power - new_power) as nat, new_power as nat);
        lemma_pow2_adds((b - power) as nat, (power - new_power) as nat);
        lemma_pow2_pos(power as nat);
        lemma_pow2_pos(new_power as nat);
        assert(c1 == f * c2);
        assert(n2 == n1 * f);
        assert(s1 == s2 * f) by (nonlinear_arith)
            requires
                s1 == q * c1,
                s2 == q * c2,
                c1 == f * c2,
        ;
        assert(offset == k1 * c1);
        assert(offset < size);
        vstd::arithmetic::div_mod::lemma_small_mod(offset as nat, size as nat);
        assert(k2 == k1 * f && k2 * c2 == offset) by (nonlinear_arith)
            requires
                k2 == (offset as int) / c2,
                offset == k1 * c1,
                c1 == f * c2,
                c2 > 0,
        ;
        assert(count >= n1 <==> count * f >= n1 * f) by (nonlinear_arith)
            requires
                f > 0,
        ;
        if count != 0 && count < n1 {
            let last1 = (k1 + count - 1) % n1;
            let last2 = (k2 + fine - 1) % n2;
            assert(k2 + fine - 1 == (k1 + count - 1) * f + (f - 1)) by (nonlinear_arith)
                requires
                    k2 == k1 * f,
                    fine == count * f,
            ;
            lemma_mod_scaled(k1 + count - 1, f - 1, n1, f);
            assert(last2 == last1 * f + (f - 1));
            assert(k2 * s2 == k1 * s1 && last2 * s2 + s2 - 1 == last1 * s1 + s1 - 1)
                by (nonlinear_arith)
                requires
                    k2 == k1 * f,
                    s1 == s2 * f,
                    last2 == last1 * f + (f - 1),
            ;
        }
    }
}

/// Powers of two do not shrink as the exponent grows.
pub proof fn lemma_pow2_increases(e: nat, top: nat)
    requires
        e <= top,
    ensures
        pow2(e) <= pow2(top),
{
    if e < top {
        lemma_pow2_strictly_increases(e, top);
    }
}

} // verus!
