use quantized_arc::arq::Arq;
use quantized_arc::arq::ArqBounded;
use quantized_arc::arq::ArqBounds;
use quantized_arc::interval::ArcInterval;
use quantized_arc::strat::power_and_count_from_length;
use quantized_arc::strat::ArqStrat;
use quantized_arc::topology::Dimension;
use quantized_arc::topology::TimeAxis;
use quantized_arc::topology::Topology;

fn bounds(offset: u32, power: u8, count: u32) -> ArqBounds {
    ArqBounds {
        offset,
        power,
        count,
    }
}

fn sixteen() -> Topology {
    Topology::space_only(Dimension::with_bit_depth(4).unwrap())
}

#[test]
fn dimensions() {
    let unit = Dimension::unit();
    assert_eq!(unit.quantum(), 1);
    assert_eq!(unit.bit_depth(), 32);
    let std = Dimension::standard_space();
    assert_eq!(std.quantum(), 4096);
    assert_eq!(std.bit_depth(), 20);
    let d = Dimension::with_bit_depth(4).unwrap();
    assert_eq!(d.quantum(), 1 << 28);
    assert_eq!(d.bit_depth(), 4);
    assert_eq!(Dimension::with_bit_depth(32), Some(unit));
    assert_eq!(Dimension::with_bit_depth(1).unwrap().quantum(), 1 << 31);
    assert!(Dimension::with_bit_depth(0).is_none());
    assert!(Dimension::with_bit_depth(33).is_none());
}

#[test]
fn topologies() {
    let t = Topology::unit_zero();
    assert_eq!(t.space, Dimension::unit());
    assert_eq!(
        t.time,
        Some(TimeAxis {
            quantum: 1,
            bit_depth: 32,
            origin: 0
        })
    );
    let t = Topology::standard(1_600_000_000_000_000);
    assert_eq!(t.space, Dimension::standard_space());
    assert_eq!(
        t.time,
        Some(TimeAxis {
            quantum: 300_000_000,
            bit_depth: 24,
            origin: 1_600_000_000_000_000
        })
    );
    assert!(sixteen().time.is_none());
}

#[test]
fn two_pow_values() {
    assert_eq!(quantized_arc::topology::two_pow(0), 1);
    assert_eq!(quantized_arc::topology::two_pow(12), 4096);
    assert_eq!(quantized_arc::topology::two_pow(63), 1 << 63);
}

#[test]
fn interval_lengths() {
    assert_eq!(ArcInterval::Empty.length(), 0);
    assert_eq!(ArcInterval::Full.length(), 1 << 32);
    assert_eq!(ArcInterval::Bounded(0, 0).length(), 1);
    assert_eq!(ArcInterval::Bounded(0, 1).length(), 2);
    assert_eq!(ArcInterval::Bounded(1, 0).length(), 1 << 32);
    assert_eq!(ArcInterval::Bounded(2, 0).length(), (1 << 32) - 1);
    assert_eq!(ArcInterval::Bounded(0, u32::MAX).length(), 1 << 32);
}

#[test]
fn interval_widen() {
    assert_eq!(
        ArcInterval::Bounded(6, u32::MAX - 1).widen(),
        ArcInterval::Bounded(6, u32::MAX)
    );
    assert_eq!(ArcInterval::Bounded(6, 9).widen(), ArcInterval::Bounded(6, 9));
    assert_eq!(ArcInterval::Full.widen(), ArcInterval::Full);
    assert_eq!(ArcInterval::Empty.widen(), ArcInterval::Empty);
}

#[test]
fn requantize_to_finer_multiplies() {
    let a = Arq::new(42, 10, 3);
    assert_eq!(a.requantize(10), Some(Arq::new(42, 10, 3)));
    assert_eq!(a.requantize(8), Some(Arq::new(42, 8, 12)));
    assert_eq!(a.requantize(0), Some(Arq::new(42, 0, 3072)));
    let b = bounds(1024, 10, 3);
    assert_eq!(b.requantize(9), Some(bounds(1024, 9, 6)));
}

#[test]
fn requantize_to_coarser_divides_or_fails() {
    let a = Arq::new(42, 4, 12);
    assert_eq!(a.requantize(5), Some(Arq::new(42, 5, 6)));
    assert_eq!(a.requantize(6), Some(Arq::new(42, 6, 3)));
    assert_eq!(a.requantize(7), None);
    assert_eq!(bounds(0, 0, 5).requantize(1), None);
    assert_eq!(bounds(0, 0, 0).requantize(200), Some(bounds(0, 200, 0)));
    assert_eq!(bounds(0, 0, 8).requantize(40), None);
}

#[test]
fn requantize_fails_where_the_count_does_not_fit() {
    assert_eq!(Arq::new(0, 32, 1).requantize(0), None);
    assert_eq!(Arq::new(0, 40, 1).requantize(2), None);
    assert_eq!(
        Arq::new(0, 32, 1).requantize(1),
        Some(Arq::new(0, 1, 1 << 31))
    );
    assert_eq!(Arq::new(0, 16, 65536).requantize(0), None);
    assert_eq!(
        Arq::new(0, 16, 65535).requantize(0),
        Some(Arq::new(0, 0, 65535 << 16))
    );
    assert_eq!(Arq::new(0, 255, 0).requantize(0), Some(Arq::new(0, 0, 0)));
}

#[test]
fn requantize_round_trip() {
    for (offset, power, count) in [(0u32, 12u8, 3u32), (999, 31, 1), (5, 7, 0), (77, 20, 4095)] {
        let a = Arq::new(offset, power, count);
        for k in 0..=power {
            if let Some(fine) = a.requantize(power - k) {
                assert_eq!(fine.requantize(power), Some(a));
            }
        }
        let b = bounds(offset, power, count);
        let fine = b.requantize(power - 7).unwrap();
        assert_eq!(fine.count, count << 7);
        assert_eq!(fine.requantize(power), Some(b));
    }
}

#[test]
fn counts_and_powers() {
    let a = Arq::new(3, 4, 5);
    assert_eq!(a.power(), 4);
    assert_eq!(a.count(), 5);
    let b = bounds(16, 4, 5);
    assert_eq!(b.power(), 4);
    assert_eq!(b.count(), 5);
    assert_eq!(b.offset(), 16);
}

#[test]
fn arc_without_chunks_is_empty() {
    let topo = Topology::unit_zero();
    assert_eq!(Arq::new(123, 5, 0).to_interval(&topo), ArcInterval::Empty);
    assert_eq!(bounds(128, 5, 0).to_interval(&topo), ArcInterval::Empty);
    assert_eq!(Arq::new(123, 200, 0).to_interval(&topo), ArcInterval::Empty);
}

#[test]
fn arc_of_the_whole_circle_is_full() {
    let topo = Topology::unit_zero();
    assert_eq!(Arq::new(123, 28, 16).to_interval(&topo), ArcInterval::Full);
    assert_eq!(Arq::new(123, 28, 17).to_interval(&topo), ArcInterval::Full);
    assert_eq!(Arq::new(123, 32, 1).to_interval(&topo), ArcInterval::Full);
    assert_eq!(Arq::new(123, 77, 1).to_interval(&topo), ArcInterval::Full);
    assert_eq!(
        Arq::new(0, 28, 15).to_interval(&topo),
        ArcInterval::Bounded(0, (15 << 28) - 1)
    );
    let topo = sixteen();
    assert_eq!(Arq::new(0, 0, 16).to_interval(&topo), ArcInterval::Full);
    assert_eq!(Arq::new(0, 1, 8).to_interval(&topo), ArcInterval::Full);
    assert_eq!(Arq::new(0, 5, 1).to_interval(&topo), ArcInterval::Full);
}

#[test]
fn arc_starts_with_the_chunk_that_holds_the_offset() {
    let topo = Topology::unit_zero();
    let a = Arq::new(1000, 4, 3);
    assert_eq!(a.to_interval(&topo), ArcInterval::Bounded(992, 992 + 48 - 1));
    assert_eq!(a.to_bounds(&topo), bounds(992, 4, 3));
    assert_eq!(bounds(992, 4, 3).to_bounds(&topo), bounds(992, 4, 3));
    assert_eq!(
        bounds(992, 4, 3).to_interval(&topo),
        ArcInterval::Bounded(992, 1039)
    );
    let topo = Topology::standard(0);
    let a = Arq::new(5, 1, 2);
    assert_eq!(
        a.to_interval(&topo),
        ArcInterval::Bounded(4 * 4096, 8 * 4096 - 1)
    );
    assert_eq!(a.to_bounds(&topo), bounds(4, 1, 2));
}

#[test]
fn arc_wraps_at_the_end_of_the_space() {
    let topo = sixteen();
    let a = Arq::new(14, 1, 3);
    assert_eq!(
        a.to_interval(&topo),
        ArcInterval::Bounded(14 << 28, (4 << 28) - 1)
    );
    // offsets are taken modulo the size of the space
    let b = Arq::new(30, 1, 3);
    assert_eq!(b.to_interval(&topo), a.to_interval(&topo));
    assert_eq!(b.to_bounds(&topo), bounds(14, 1, 3));
    let topo = Topology::unit_zero();
    let c = Arq::new(u32::MAX, 4, 2);
    assert_eq!(
        c.to_interval(&topo),
        ArcInterval::Bounded(u32::MAX - 15, 15)
    );
}

#[test]
fn another_topology_gives_another_interval() {
    let a = Arq::new(20, 2, 2);
    assert_eq!(
        a.to_interval(&Topology::unit_zero()),
        ArcInterval::Bounded(20, 27)
    );
    assert_eq!(
        a.to_interval(&Topology::standard(0)),
        ArcInterval::Bounded(20 * 4096, 28 * 4096 - 1)
    );
    // 20 is 4 modulo 16
    assert_eq!(
        a.to_interval(&sixteen()),
        ArcInterval::Bounded(4 << 28, (12u32 << 28) - 1)
    );
    assert_eq!(a.to_interval(&sixteen()), a.to_interval(&sixteen()));
}

#[test]
fn bounds_from_interval_exact() {
    let topo = Topology::unit_zero();
    assert_eq!(
        ArqBounds::from_interval(&topo, 4, ArcInterval::Bounded(992, 1039)),
        Some(bounds(992, 4, 3))
    );
    assert_eq!(
        ArqBounds::from_interval(&topo, 4, ArcInterval::Bounded(993, 1039)),
        None
    );
    assert_eq!(
        ArqBounds::from_interval(&topo, 4, ArcInterval::Bounded(992, 1038)),
        None
    );
    assert_eq!(
        ArqBounds::from_interval(&topo, 4, ArcInterval::Bounded(u32::MAX - 15, 15)),
        Some(bounds(u32::MAX - 15, 4, 2))
    );
    assert_eq!(
        ArqBounds::from_interval(&topo, 9, ArcInterval::Empty),
        Some(bounds(0, 9, 0))
    );
    assert_eq!(
        ArqBounds::from_interval(&topo, 9, ArcInterval::Full),
        Some(bounds(0, 9, 1 << 23))
    );
    assert_eq!(ArqBounds::from_interval(&topo, 0, ArcInterval::Full), None);
    assert_eq!(
        ArqBounds::from_interval(&topo, 0, ArcInterval::Bounded(7, 6)),
        None
    );
    assert_eq!(
        ArqBounds::from_interval(&topo, 0, ArcInterval::Bounded(7, 7)),
        Some(bounds(7, 0, 1))
    );
    assert_eq!(
        ArqBounds::from_interval(&topo, 40, ArcInterval::Full),
        Some(bounds(0, 40, 1))
    );
    assert_eq!(
        ArqBounds::from_interval(&topo, 40, ArcInterval::Bounded(0, u32::MAX)),
        Some(bounds(0, 40, 1))
    );
    let topo = sixteen();
    assert_eq!(
        ArqBounds::from_interval(&topo, 2, ArcInterval::Bounded(4 << 28, (8u32 << 28) - 1)),
        Some(bounds(4, 2, 1))
    );
    assert_eq!(
        ArqBounds::from_interval(&topo, 3, ArcInterval::Bounded(4 << 28, (8u32 << 28) - 1)),
        None
    );
}

#[test]
fn bounds_from_interval_and_back() {
    let topo = Topology::standard(0);
    for iv in [
        ArcInterval::Bounded(0, 8191),
        ArcInterval::Bounded(8192, 8192 * 5 - 1),
        ArcInterval::Bounded(u32::MAX - 8191, 8191),
        ArcInterval::Full,
        ArcInterval::Empty,
    ] {
        let b = ArqBounds::from_interval(&topo, 1, iv).unwrap();
        assert_eq!(b.power(), 1);
        assert_eq!(b.to_interval(&topo), iv);
        assert_eq!(b.to_bounds(&topo), b);
    }
}

#[test]
fn bounds_from_interval_rounded() {
    let topo = Topology::unit_zero();
    assert_eq!(
        ArqBounds::from_interval_rounded(&topo, 3, ArcInterval::Bounded(1000, 1099)),
        bounds(1000, 3, 13)
    );
    assert_eq!(
        ArqBounds::from_interval_rounded(&topo, 3, ArcInterval::Bounded(1001, 1099)),
        bounds(1000, 3, 12)
    );
    assert_eq!(
        ArqBounds::from_interval_rounded(&topo, 3, ArcInterval::Bounded(1001, 1004)),
        bounds(1000, 3, 1)
    );
    assert_eq!(
        ArqBounds::from_interval_rounded(&topo, 3, ArcInterval::Bounded(1001, 1003)),
        bounds(1000, 3, 0)
    );
    assert_eq!(
        ArqBounds::from_interval_rounded(&topo, 3, ArcInterval::Empty),
        bounds(0, 3, 0)
    );
    assert_eq!(
        ArqBounds::from_interval_rounded(&topo, 3, ArcInterval::Full),
        bounds(0, 3, 1 << 29)
    );
    assert_eq!(
        ArqBounds::from_interval_rounded(&topo, 0, ArcInterval::Full),
        bounds(0, 0, u32::MAX)
    );
    assert_eq!(
        ArqBounds::from_interval_rounded(&topo, 50, ArcInterval::Bounded(5, 4)),
        bounds(0, 50, 1)
    );
    let topo = Topology::standard(0);
    assert_eq!(
        ArqBounds::from_interval_rounded(&topo, 1, ArcInterval::Bounded(3 * 4096, 9 * 4096)),
        bounds(2, 1, 3)
    );
}

#[test]
fn chunking_policy_boundary() {
    let topo = Topology::unit_zero();
    assert_eq!(
        power_and_count_from_length(&topo.space, 100, 16),
        (3, 13)
    );
    let strat = ArqStrat::new(16);
    assert_eq!(strat.max_chunks(), 16);
    assert_eq!(strat.choose_power_and_count(&topo, 100), (3, 13));
    // 13 chunks of 8 cover 104
    assert_eq!(13 * 8, 104);
}

#[test]
fn chunking_policy_values() {
    let unit = Dimension::unit();
    assert_eq!(power_and_count_from_length(&unit, 0, 16), (0, 0));
    assert_eq!(power_and_count_from_length(&unit, 16, 16), (0, 16));
    assert_eq!(power_and_count_from_length(&unit, 17, 16), (1, 9));
    assert_eq!(power_and_count_from_length(&unit, 32, 16), (1, 16));
    assert_eq!(power_and_count_from_length(&unit, 33, 16), (2, 8));
    assert_eq!(power_and_count_from_length(&unit, 99, 16), (3, 12));
    assert_eq!(power_and_count_from_length(&unit, 1 << 32, 16), (28, 16));
    assert_eq!(power_and_count_from_length(&unit, 1 << 32, 1), (32, 1));
    assert_eq!(power_and_count_from_length(&unit, 5, 0), (4, 0));
    assert_eq!(power_and_count_from_length(&unit, u64::MAX, 0), (65, 0));
    assert_eq!(
        power_and_count_from_length(&unit, u64::MAX, u32::MAX),
        (33, 1 << 31)
    );
    let std = Dimension::standard_space();
    // 1_000_000 locations are 244 quanta
    assert_eq!(power_and_count_from_length(&std, 1_000_000, 16), (4, 15));
    assert_eq!(power_and_count_from_length(&std, 4095, 16), (0, 0));
}

#[test]
fn ascii_bars() {
    let topo = Topology::unit_zero();
    assert_eq!(Arq::new(0, 30, 4).to_ascii(&topo, 8), "--------");
    assert_eq!(Arq::new(0, 30, 0).to_ascii(&topo, 8), "        ");
    assert_eq!(Arq::new(1 << 30, 30, 1).to_ascii(&topo, 8), "  --    ");
    assert_eq!(bounds(1 << 30, 30, 2).to_ascii(&topo, 8), "  ----  ");
    assert_eq!(bounds(3 << 30, 30, 2).to_ascii(&topo, 8), "--    --");
    assert_eq!(Arq::new(1 << 30, 30, 1).to_ascii(&topo, 1).len(), 1);
}
