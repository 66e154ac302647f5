//! Quantized coverage arcs on a circular address space.
//!
//! A peer's share of the address circle is written as an offset, a power and a
//! count: `count` chunks of `2^power` quanta each. The modules below give the
//! space that arcs live in, the arcs, the policy that picks a resolution for a
//! raw length, and sets of arcs normalized to one power.

pub mod arq;
pub mod arq_set;
pub mod geometry;
pub mod interval;
pub mod laws;
pub mod raw;
pub mod runs;
pub mod strat;
pub mod topology;
