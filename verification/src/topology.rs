//! The address space: how many quanta the circle has, and how long each is.

use vstd::prelude::*;
use vstd::arithmetic::power2::pow2;
use vstd::arithmetic::power2::lemma_pow2_unfold;
use vstd::arithmetic::power2::lemma_pow2_adds;
use vstd::arithmetic::power2::lemma_pow2_pos;
use vstd::arithmetic::power2::lemma_pow2_strictly_increases;
use vstd::arithmetic::power2::lemma2_to64;

verus! {

/// Number of locations on the circle, `2^32`.
pub const FULL_LEN: u64 = 0x1_0000_0000;

/// `2^p` as a machine integer.
pub fn two_pow(p: u8) -> (r: u64)
    requires
        p <= 63,
    ensures
        r == pow2(p as nat),
{
    let mut r: u64 = 1;
    let mut i: u8 = 0;
    proof {
        lemma2_to64();
    }
    while i < p
        invariant
            i <= p <= 63,
            r == pow2(i as nat),
        decreases p - i,
    {
        proof {
            lemma_pow2_unfold((i + 1) as nat);
            if i + 1 < 63 {
                lemma_pow2_strictly_increases((i + 1) as nat, 63);
            }
            lemma_pow2_unfold(64);
            lemma2_to64();
        }
        r = r * 2;
        i += 1;
    }
    r
}

/// Powers of two up to `2^32` multiply back to `2^32`, and none is zero.
pub proof fn lemma_pow2_split(e: nat)
    requires
        e <= 32,
    ensures
        pow2(e) * pow2((32 - e) as nat) == 0x1_0000_0000,
        1 <= pow2(e) <= 0x1_0000_0000,
{
    lemma_pow2_adds(e, (32 - e) as nat);
    lemma_pow2_pos(e);
    lemma_pow2_pos((32 - e) as nat);
    lemma2_to64();
    assert(pow2(e) <= pow2(e) * pow2((32 - e) as nat)) by (nonlinear_arith)
        requires
            pow2((32 - e) as nat) >= 1,
    ;
}

/// One axis of the address space.
///
/// The circle of `2^32` locations is cut into `2^bit_depth` quanta of
/// `quantum` locations each. Arcs count in quanta.
#[derive(Clone, Copy, Debug, PartialEq, Eq)]
pub struct Dimension {
    quantum: u32,
    bit_depth: u8,
}

impl Dimension {
    /// The depth is between 1 and 32 and the quantum is what is left of the
    /// 32 bits.
    #[verifier::type_invariant]
    pub closed spec fn wf(&self) -> bool {
        &&& 1 <= self.bit_depth <= 32
        &&& self.quantum == pow2((32 - self.bit_depth) as nat)
    }

    /// Number of bits that address a quantum.
    pub closed spec fn depth(&self) -> nat {
        self.bit_depth as nat
    }

    /// Locations per quantum.
    pub closed spec fn quantum_len(&self) -> nat {
        self.quantum as nat
    }

    /// Number of quanta on the circle: the modulus of offsets.
    pub open spec fn size(&self) -> nat {
        pow2(self.depth())
    }

    /// Exponent of the length, in locations, of one chunk at `power`. A chunk
    /// cannot be longer than the circle.
    pub open spec fn chunk_exp(&self, power: u8) -> nat {
        if power <= self.depth() {
            (32 - self.depth() + power) as nat
        } else {
            32
        }
    }

    /// Length of one chunk at `power`, in locations.
    pub open spec fn chunk_len(&self, power: u8) -> nat {
        pow2(self.chunk_exp(power))
    }

    /// Number of chunks at `power` that make the whole circle.
    pub open spec fn chunk_count(&self, power: u8) -> nat {
        pow2((32 - self.chunk_exp(power)) as nat)
    }

    /// What `wf` says, for callers outside this module.
    pub proof fn lemma_wf(&self)
        requires
            self.wf(),
        ensures
            1 <= self.depth() <= 32,
            self.quantum_len() == pow2((32 - self.depth()) as nat),
            self.quantum_len() * self.size() == FULL_LEN,
            1 <= self.quantum_len() <= 0x8000_0000,
            2 <= self.size() <= FULL_LEN,
    {
        lemma_pow2_split(self.depth());
        lemma_pow2_split((32 - self.depth()) as nat);
        lemma_pow2_strictly_increases(0, self.depth());
        lemma_pow2_strictly_increases((32 - self.depth()) as nat, 32);
        lemma2_to64();
        assert(self.quantum_len() < 0x1_0000_0000);
        assert(self.quantum_len() * 2 <= self.quantum_len() * self.size()) by (nonlinear_arith)
            requires
                self.size() >= 2,
        ;
    }

    /// The whole circle as one quantum per location.
    pub fn unit() -> (r: Self)
        ensures
            r.wf(),
            r.depth() == 32,
            r.quantum_len() == 1,
    {
        proof {
            lemma2_to64();
        }
        Dimension { quantum: 1, bit_depth: 32 }
    }

    /// The space of the deployed network: quanta of `2^12` locations.
    pub fn standard_space() -> (r: Self)
        ensures
            r.wf(),
            r.depth() == 20,
            r.quantum_len() == 4096,
    {
        proof {
            lemma2_to64();
        }
        Dimension { quantum: 4096, bit_depth: 20 }
    }

    /// A circle of `2^bit_depth` quanta, where that is between 2 and `2^32`.
    pub fn with_bit_depth(bit_depth: u8) -> (r: Option<Self>)
        ensures
            r is Some <==> 1 <= bit_depth <= 32,
            r matches Some(d) ==> d.wf() && d.depth() == bit_depth,
    {
        if 1 <= bit_depth && bit_depth <= 32 {
            let q = two_pow(32 - bit_depth);
            proof {
                lemma_pow2_split(bit_depth as nat);
                lemma_pow2_strictly_increases((32 - bit_depth) as nat, 32);
                lemma2_to64();
            }
            Some(Dimension { quantum: q as u32, bit_depth })
        } else {
            None
        }
    }

    /// Locations per quantum.
    pub fn quantum(&self) -> (q: u32)
        ensures
            q == self.quantum_len(),
            self.wf(),
    {
        proof {
            use_type_invariant(self);
        }
        self.quantum
    }

    /// Number of bits that address a quantum.
    pub fn bit_depth(&self) -> (b: u8)
        ensures
            b == self.depth(),
            1 <= b <= 32,
            self.wf(),
    {
        proof {
            use_type_invariant(self);
        }
        self.bit_depth
    }
}

/// The time axis that goes with a space: the length of a quantum of time in
/// microseconds, the bits that count quanta, and the moment of quantum 0.
#[derive(Clone, Copy, Debug, PartialEq, Eq, Structural)]
pub struct TimeAxis {
    pub quantum: u32,
    pub bit_depth: u8,
    pub origin: i64,
}

/// The space that arcs are measured in. Every conversion between arcs and
/// locations takes one; arcs made under different topologies do not mix.
#[derive(Clone, Copy, Debug, PartialEq, Eq)]
pub struct Topology {
    pub space: Dimension,
    pub time: Option<TimeAxis>,
}

impl Topology {
    /// One quantum per location and per microsecond, from time 0.
    pub fn unit_zero() -> (r: Self)
        ensures
            r.space.wf(),
            r.space.depth() == 32,
            r.time == Some(TimeAxis { quantum: 1, bit_depth: 32, origin: 0 }),
    {
        Topology {
            space: Dimension::unit(),
            time: Some(TimeAxis { quantum: 1, bit_depth: 32, origin: 0 }),
        }
    }

    /// The topology of the deployed network: quanta of `2^12` locations and
    /// of five minutes, from `origin`.
    pub fn standard(origin: i64) -> (r: Self)
        ensures
            r.space.wf(),
            r.space.depth() == 20,
            r.time == Some(TimeAxis { quantum: 300_000_000, bit_depth: 24, origin }),
    {
        Topology {
            space: Dimension::standard_space(),
            time: Some(TimeAxis { quantum: 300_000_000, bit_depth: 24, origin }),
        }
    }

    /// A space without a time axis.
    pub fn space_only(space: Dimension) -> (r: Self)
        ensures
            r.space == space,
            r.time is None,
    {
        Topology { space, time: None }
    }
}

} // verus!
