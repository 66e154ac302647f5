use quantized_arc::arq::Arq;
use quantized_arc::arq::ArqBounded;
use quantized_arc::arq::ArqBounds;
use quantized_arc::arq_set::runs_to_bounds;
use quantized_arc::arq_set::runs_to_policy_bounds;
use quantized_arc::arq_set::ArqBoundsSet;
use quantized_arc::arq_set::ArqSet;
use quantized_arc::arq_set::ArqSetImpl;
use quantized_arc::interval::ArcInterval;
use quantized_arc::strat::ArqStrat;
use quantized_arc::topology::Dimension;
use quantized_arc::topology::Topology;

fn bounds(offset: u32, power: u8, count: u32) -> ArqBounds {
    ArqBounds {
        offset,
        power,
        count,
    }
}

fn sixteen() -> Topology {
    Topology::space_only(Dimension::with_bit_depth(4).unwrap())
}

fn show<A: ArqBounded>(topo: &Topology, arqs: &[A], len: usize) {
    for (i, arq) in arqs.iter().enumerate() {
        println!(
            "|{}| {}:\t{} +{} *2^{}",
            arq.to_ascii(topo, len),
            i,
            arq.to_bounds(topo).offset(),
            arq.count(),
            arq.power()
        );
    }
}

#[test]
fn intersect_arqs() {
    let topo = Topology::unit_zero();
    let a = Arq::new(536870912u32, 27, 11);
    let b = Arq::new(805306368u32, 27, 11);
    assert_eq!(a.to_bounds(&topo).offset(), 536870912);

    let a = ArqSet::single(a);
    let b = ArqSet::single(b);
    assert!(a.can_intersect(&topo, &b));
    let c = a.intersection(&topo, &b);
    show(&topo, a.arqs(), 64);
    show(&topo, b.arqs(), 64);
    show(&topo, c.arqs(), 64);
    assert_eq!(c.power(), 27);
    assert_eq!(c.arqs().to_vec(), vec![bounds(805306368, 27, 9)]);
}

#[test]
fn normalize_arqs() {
    let s = ArqSetImpl::new(vec![
        ArqBounds {
            offset: 0,
            power: 10,
            count: 10,
        },
        ArqBounds {
            offset: 0,
            power: 8,
            count: 40,
        },
        ArqBounds {
            offset: 0,
            power: 12,
            count: 3,
        },
    ]);

    assert_eq!(
        s.arqs().to_vec(),
        vec![
            ArqBounds {
                offset: 0,
                power: 8,
                count: (4 * 10)
            },
            ArqBounds {
                offset: 0,
                power: 8,
                count: 40
            },
            ArqBounds {
                offset: 0,
                power: 8,
                count: (3 * 16)
            },
        ]
    );
}

#[test]
fn normalize_takes_the_lowest_power() {
    let s = ArqSetImpl::new(vec![
        Arq::new(7, 5, 3),
        Arq::new(100, 3, 1),
        Arq::new(9, 4, 0),
    ]);
    assert_eq!(s.power(), 3);
    assert_eq!(
        s.arqs().to_vec(),
        vec![Arq::new(7, 3, 12), Arq::new(100, 3, 1), Arq::new(9, 3, 0)]
    );
    // each member keeps its covered length
    assert_eq!(12u64 << 3, 3u64 << 5);
}

#[test]
fn empty_set_is_new_of_nothing() {
    let a: ArqSet = ArqSetImpl::new(vec![]);
    let b: ArqSet = ArqSetImpl::empty();
    assert_eq!(a, b);
    assert_eq!(a.power(), 1);
    assert!(a.arqs().is_empty());
    let c: ArqBoundsSet = ArqSetImpl::new(Vec::new());
    assert_eq!(c, ArqBoundsSet::empty());
}

#[test]
fn single_keeps_the_arc() {
    let s = ArqSet::single(Arq::new(12, 9, 5));
    assert_eq!(s.power(), 9);
    assert_eq!(s.arqs().to_vec(), vec![Arq::new(12, 9, 5)]);
    assert_eq!(s, ArqSetImpl::new(vec![Arq::new(12, 9, 5)]));
}

#[test]
fn clone_is_equal() {
    let s = ArqSetImpl::new(vec![bounds(0, 4, 2), bounds(32, 3, 1)]);
    let c = s.clone();
    assert_eq!(c, s);
    assert_eq!(c.power(), 3);
}

#[test]
fn set_requantize_is_all_or_nothing() {
    let s = ArqSetImpl::new(vec![bounds(0, 4, 4), bounds(64, 4, 6)]);
    let finer = s.requantize(2).unwrap();
    assert_eq!(finer.power(), 2);
    assert_eq!(
        finer.arqs().to_vec(),
        vec![bounds(0, 2, 16), bounds(64, 2, 24)]
    );
    let coarser = s.requantize(5).unwrap();
    assert_eq!(coarser.power(), 5);
    assert_eq!(coarser.arqs().to_vec(), vec![bounds(0, 5, 2), bounds(64, 5, 3)]);
    // 6 chunks do not make a whole number of chunks four times as long
    assert!(s.requantize(6).is_none());
    // the empty set takes any power
    let e = ArqSet::empty().requantize(20).unwrap();
    assert_eq!(e.power(), 20);
    assert!(e.arqs().is_empty());
}

#[test]
fn set_requantize_fails_where_a_count_does_not_fit() {
    let s = ArqSet::single(Arq::new(0, 31, 3));
    assert!(s.requantize(0).is_none());
    assert_eq!(
        s.requantize(1).unwrap().arqs().to_vec(),
        vec![Arq::new(0, 1, 3 << 30)]
    );
}

#[test]
fn intersection_on_sixteen_units() {
    let topo = sixteen();
    let x = ArqSet::single(Arq::new(0, 2, 2));
    let y = ArqSet::single(Arq::new(4, 2, 2));
    assert_eq!(
        x.arqs()[0].to_interval(&topo),
        ArcInterval::Bounded(0, (8u32 << 28) - 1)
    );
    assert_eq!(
        y.arqs()[0].to_interval(&topo),
        ArcInterval::Bounded(4 << 28, (12u32 << 28) - 1)
    );
    assert!(x.can_intersect(&topo, &y));
    let r = x.intersection(&topo, &y);
    assert_eq!(r.power(), 2);
    assert_eq!(r.arqs().to_vec(), vec![bounds(4, 2, 1)]);
    assert_eq!(
        r.arqs()[0].to_interval(&topo),
        ArcInterval::Bounded(4 << 28, (8u32 << 28) - 1)
    );
}

#[test]
fn intersection_commutes() {
    let topo = Topology::standard(0);
    let a = ArqSetImpl::new(vec![Arq::new(0, 10, 100), Arq::new(500_000, 12, 9)]);
    let b = ArqSetImpl::new(vec![Arq::new(60_000, 11, 200), Arq::new(1_000_000, 9, 64)]);
    assert!(a.can_intersect(&topo, &b));
    assert!(b.can_intersect(&topo, &a));
    let ab = a.intersection(&topo, &b);
    let ba = b.intersection(&topo, &a);
    assert_eq!(ab.power(), 9);
    assert_eq!(ab, ba);
    assert_eq!(
        ab.to_dht_arc_set(&topo).intervals(),
        ba.to_dht_arc_set(&topo).intervals()
    );
    // at power 9 the arc around 60000 starts at 59904 and the first arc of
    // `a` ends at 102400
    assert_eq!(ab.arqs().to_vec(), vec![bounds(59904, 9, 83)]);
}

#[test]
fn intersection_with_itself() {
    let topo = Topology::unit_zero();
    let a = ArqSetImpl::new(vec![bounds(1 << 20, 20, 3), bounds(1 << 28, 22, 5)]);
    assert!(a.can_intersect(&topo, &a));
    let r = a.intersection(&topo, &a);
    assert_eq!(r.power(), 20);
    assert_eq!(r.arqs().to_vec(), a.arqs().to_vec());
    assert_eq!(
        r.to_dht_arc_set(&topo).intervals(),
        a.to_dht_arc_set(&topo).intervals()
    );
}

#[test]
fn intersection_joins_what_touches() {
    let topo = sixteen();
    // [0, 4) and [4, 8) are one run; with [12, 16) the run goes round the end
    let a = ArqSetImpl::new(vec![Arq::new(0, 1, 2), Arq::new(4, 1, 2), Arq::new(12, 1, 2)]);
    let r = a.intersection(&topo, &a);
    assert_eq!(r.arqs().to_vec(), vec![bounds(12, 1, 6)]);
    assert_eq!(
        r.arqs()[0].to_interval(&topo),
        ArcInterval::Bounded(12 << 28, (8u32 << 28) - 1)
    );
}

#[test]
fn intersection_with_empty_set() {
    let topo = Topology::unit_zero();
    let a = ArqSet::single(Arq::new(77, 12, 40));
    let e = ArqSet::empty();
    let r = a.intersection(&topo, &e);
    assert!(r.arqs().is_empty());
    assert_eq!(r.power(), 1);
    let r = e.intersection(&topo, &a);
    assert!(r.arqs().is_empty());
    assert_eq!(r.power(), 1);
    let low = ArqSet::empty().requantize(20).unwrap();
    let r = a.intersection(&topo, &low);
    assert!(r.arqs().is_empty());
    assert_eq!(r.power(), 12);
    // arcs without chunks cover nothing
    let z = ArqSet::single(Arq::new(77, 12, 0));
    assert!(a.intersection(&topo, &z).arqs().is_empty());
}

#[test]
fn intersection_of_disjoint_sets_is_empty() {
    let topo = sixteen();
    let a = ArqSet::single(Arq::new(0, 2, 1));
    let b = ArqSet::single(Arq::new(8, 2, 1));
    let r = a.intersection(&topo, &b);
    assert!(r.arqs().is_empty());
    assert_eq!(r.power(), 2);
}

#[test]
fn intersection_of_two_runs() {
    let topo = sixteen();
    // a covers [14, 16) and [0, 6); b covers [4, 16)
    let a = ArqSet::single(Arq::new(14, 1, 4));
    let b = ArqSet::single(Arq::new(4, 2, 3));
    let r = a.intersection(&topo, &b);
    assert_eq!(r.power(), 1);
    assert_eq!(r.arqs().to_vec(), vec![bounds(4, 1, 1), bounds(14, 1, 1)]);
}

#[test]
fn intersection_of_full_sets() {
    let topo = sixteen();
    let a = ArqSetImpl::new(vec![Arq::new(0, 3, 1), Arq::new(8, 2, 2)]);
    let b = ArqSet::single(Arq::new(5, 4, 1));
    assert_eq!(b.arqs()[0].to_interval(&topo), ArcInterval::Full);
    let r = a.intersection(&topo, &b);
    assert_eq!(r.power(), 2);
    assert_eq!(r.arqs().to_vec(), vec![bounds(0, 2, 4)]);
    assert_eq!(r.arqs()[0].to_interval(&topo), ArcInterval::Full);
}

#[test]
fn intersection_up_to_the_last_location() {
    let topo = Topology::unit_zero();
    let a = ArqSet::single(Arq::new(u32::MAX, 1, 1));
    assert_eq!(
        a.arqs()[0].to_interval(&topo),
        ArcInterval::Bounded(u32::MAX - 1, u32::MAX)
    );
    let b = ArqSet::single(Arq::new(1 << 31, 31, 1));
    let r = a.intersection(&topo, &b);
    assert_eq!(r.arqs().to_vec(), vec![bounds(u32::MAX - 1, 1, 1)]);
}

#[test]
fn cannot_intersect_at_single_locations() {
    let topo = Topology::unit_zero();
    let a = ArqSet::single(Arq::new(5, 0, 3));
    let b = ArqSet::single(Arq::new(6, 4, 1));
    assert!(!a.can_intersect(&topo, &b));
    assert!(b.can_intersect(&topo, &b));
    // on a coarser space power 0 is a chunk of many locations
    assert!(a.can_intersect(&sixteen(), &b));
    // a count that does not fit at the lower power
    let c = ArqSet::single(Arq::new(0, 31, 2));
    let d = ArqSet::single(Arq::new(0, 1, 1));
    assert!(c.can_intersect(&topo, &d));
    let e = ArqSet::single(Arq::new(0, 33, 1));
    assert!(!e.can_intersect(&topo, &d));
}

#[test]
fn to_dht_arc_set_is_the_union() {
    let topo = sixteen();
    let a = ArqSetImpl::new(vec![Arq::new(2, 1, 1), Arq::new(9, 1, 2), Arq::new(4, 1, 1)]);
    let set = a.to_dht_arc_set(&topo);
    let runs: Vec<(u32, u32)> = set
        .intervals()
        .into_iter()
        .map(|r| r.to_bounds_grouped().unwrap())
        .map(|(lo, hi)| (lo.as_u32(), hi.as_u32()))
        .collect();
    assert_eq!(
        runs,
        vec![(2 << 28, (6 << 28) - 1), (8 << 28, (12u32 << 28) - 1)]
    );
    assert!(ArqSet::empty().to_dht_arc_set(&topo).is_empty());
}

#[test]
fn from_dht_arc_set_rounds_each_run() {
    let topo = Topology::unit_zero();
    let strat = ArqStrat::new(16);
    let set = kitsune_p2p_dht_arc::DhtArcSet::from(vec![(1000u32, 1099u32), (5000u32, 5009u32)]);
    let s = ArqBoundsSet::from_dht_arc_set(&topo, &strat, &set).unwrap();
    // 100 locations take power 3 and 13 chunks from 1000; 10 take power 0
    assert_eq!(s.power(), 0);
    assert_eq!(s.arqs().to_vec(), vec![bounds(1000, 0, 104), bounds(5000, 0, 10)]);
    let runs = vec![ArcInterval::Bounded(1000, 1099), ArcInterval::Bounded(5000, 5009)];
    assert_eq!(
        runs_to_policy_bounds(&topo, &strat, &runs),
        vec![bounds(1000, 3, 13), bounds(5000, 0, 10)]
    );
}

#[test]
fn from_dht_arc_set_of_nothing_and_of_everything() {
    let topo = Topology::standard(0);
    let strat = ArqStrat::new(8);
    let none = kitsune_p2p_dht_arc::DhtArcSet::new_empty();
    let s = ArqBoundsSet::from_dht_arc_set(&topo, &strat, &none).unwrap();
    assert_eq!(s, ArqBoundsSet::empty());
    let all = kitsune_p2p_dht_arc::DhtArcSet::new_full();
    let s = ArqBoundsSet::from_dht_arc_set(&topo, &strat, &all).unwrap();
    assert_eq!(s.arqs().to_vec(), vec![bounds(0, 17, 8)]);
    assert_eq!(s.arqs()[0].to_interval(&topo), ArcInterval::Full);
}

#[test]
fn from_dht_arc_set_fails_where_a_count_does_not_fit() {
    let topo = Topology::unit_zero();
    let strat = ArqStrat::new(16);
    let set = kitsune_p2p_dht_arc::DhtArcSet::from(vec![(0u32, 0u32), (2u32, u32::MAX - 3)]);
    assert!(ArqBoundsSet::from_dht_arc_set(&topo, &strat, &set).is_none());
}

#[test]
fn runs_become_bounds() {
    let topo = Topology::unit_zero();
    let runs = vec![
        ArcInterval::Bounded(16, 47),
        ArcInterval::Bounded(u32::MAX - 31, u32::MAX - 1),
    ];
    // a run that ends at the location before the last ends at the last
    assert_eq!(
        runs_to_bounds(&topo, 4, &runs),
        Some(vec![bounds(16, 4, 2), bounds(u32::MAX - 31, 4, 2)])
    );
    assert_eq!(runs_to_bounds(&topo, 5, &runs), None);
    assert_eq!(runs_to_bounds(&topo, 5, &Vec::new()), Some(Vec::new()));
    assert_eq!(
        runs_to_bounds(&topo, 5, &vec![ArcInterval::Full]),
        Some(vec![bounds(0, 5, 1 << 27)])
    );
}

#[test]
fn members_as_intervals() {
    let topo = Topology::unit_zero();
    let s = ArqSetImpl::new(vec![Arq::new(100, 5, 1), Arq::new(7, 4, 0), Arq::new(0, 31, 2)]);
    assert_eq!(
        s.to_intervals(&topo),
        vec![
            ArcInterval::Bounded(96, 127),
            ArcInterval::Empty,
            ArcInterval::Full
        ]
    );
}

#[test]
fn try_new_fails_where_a_count_does_not_fit() {
    let s = ArqSetImpl::try_new(vec![Arq::new(0, 32, 1), Arq::new(0, 0, 1)]);
    assert!(s.is_none());
    let s = ArqSetImpl::try_new(vec![Arq::new(0, 32, 1), Arq::new(0, 1, 1)]).unwrap();
    assert_eq!(s.power(), 1);
    assert_eq!(s.arqs().to_vec(), vec![Arq::new(0, 1, 1 << 31), Arq::new(0, 1, 1)]);
    let e: Option<ArqSet> = ArqSetImpl::try_new(Vec::new());
    assert_eq!(e, Some(ArqSet::empty()));
}
