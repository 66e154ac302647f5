//! The chunking policy: how finely a raw length is quantized.

use vstd::prelude::*;
use vstd::arithmetic::power2::pow2;
use vstd::arithmetic::power2::lemma_pow2_pos;
use vstd::arithmetic::power2::lemma_pow2_unfold;
use vstd::arithmetic::power2::lemma2_to64;
use crate::geometry::lemma_pow2_increases;
use crate::topology::Dimension;
use crate::topology::Topology;

verus! {

/// The number of chunks of `2^power` quanta nearest to `len` quanta, halves
/// rounded up.
pub open spec fn chunks_at(len: nat, power: nat) -> nat {
    (len + pow2(power) / 2) / pow2(power)
}

/// `power` is the lowest power at which `len` quanta take no more than
/// `max_chunks` chunks.
pub open spec fn is_chosen_power(len: nat, max_chunks: u32, power: u8) -> bool {
    &&& chunks_at(len, power as nat) <= max_chunks
    &&& forall|p: nat| p < power ==> #[trigger] chunks_at(len, p) > max_chunks
}

/// The lowest power at which `len` quanta take no more than `max_chunks`
/// chunks.
pub open spec fn chosen_power(len: nat, max_chunks: u32) -> u8 {
    choose|power: u8| is_chosen_power(len, max_chunks, power)
}

/// There is one lowest power: the power that the policy finds is
/// `chosen_power`.
pub proof fn lemma_chosen_power(len: nat, max_chunks: u32, power: u8)
    requires
        is_chosen_power(len, max_chunks, power),
    ensures
        chosen_power(len, max_chunks) == power,
{
    let other = chosen_power(len, max_chunks);
    if other < power {
        assert(chunks_at(len, other as nat) > max_chunks);
    }
    if power < other {
        assert(chunks_at(len, power as nat) > max_chunks);
    }
}

/// The power and count for a raw length of `len` locations: the lowest power
/// at which the length, in quanta, takes no more than `max_chunks` chunks,
/// and the number of chunks nearest to the length at that power.
pub fn power_and_count_from_length(dim: &Dimension, len: u64, max_chunks: u32) -> (r: (u8, u32))
    ensures
        is_chosen_power(len as nat / dim.quantum_len(), max_chunks, r.0),
        r.0 == chosen_power(len as nat / dim.quantum_len(), max_chunks),
        r.1 == chunks_at(len as nat / dim.quantum_len(), r.0 as nat),
        r.1 <= max_chunks,
{
    let q = dim.quantum();
    proof {
        dim.lemma_wf();
        lemma2_to64();
    }
    let quanta: u64 = len / (q as u64);
    let mut power: u8 = 0;
    let mut chunk: u128 = 1;
    let mut count: u128 = quanta as u128;
    while count > max_chunks as u128
        invariant
            power <= 65,
            chunk == pow2(power as nat),
            1 <= chunk <= 0x2_0000_0000_0000_0000,
            count == chunks_at(quanta as nat, power as nat),
            forall|p: nat| p < power ==> #[trigger] chunks_at(quanta as nat, p) > max_chunks,
        decreases 65 - power,
    {
        proof {
            lemma2_to64();
            lemma_pow2_unfold(65);
            if power == 65 {
                assert(chunk == 0x2_0000_0000_0000_0000);
                assert((quanta as int + 0x1_0000_0000_0000_0000) / 0x2_0000_0000_0000_0000 == 0);
                assert(false);
            }
            lemma_pow2_unfold((power + 1) as nat);
            lemma_pow2_pos(power as nat);
            lemma_pow2_increases((power + 1) as nat, 65);
        }
        power = power + 1;
        chunk = chunk * 2;
        count = (quanta as u128 + chunk / 2) / chunk;
    }
    proof {
        lemma_chosen_power(quanta as nat, max_chunks, power);
    }
    (power, count as u32)
}

/// The budget of chunks that an arc may take.
#[derive(Clone, Copy, Debug, PartialEq, Eq, Structural)]
pub struct ArqStrat {
    pub max_chunks: u32,
}

impl ArqStrat {
    /// The policy that allows `max_chunks` chunks to an arc.
    pub fn new(max_chunks: u32) -> (s: Self)
        ensures
            s.max_chunks == max_chunks,
    {
        ArqStrat { max_chunks }
    }

    /// The most chunks that an arc may take.
    pub fn max_chunks(&self) -> (m: u32)
        ensures
            m == self.max_chunks,
    {
        self.max_chunks
    }

    /// The power and count that this policy gives a raw length of
    /// `raw_length` locations.
    pub fn choose_power_and_count(&self, topo: &Topology, raw_length: u64) -> (r: (u8, u32))
        ensures
            is_chosen_power(raw_length as nat / topo.space.quantum_len(), self.max_chunks, r.0),
            r.0 == chosen_power(raw_length as nat / topo.space.quantum_len(), self.max_chunks),
            r.1 == chunks_at(raw_length as nat / topo.space.quantum_len(), r.0 as nat),
            r.1 <= self.max_chunks,
    {
        power_and_count_from_length(&topo.space, raw_length, self.max_chunks)
    }
}

} // verus!
