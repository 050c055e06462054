use core_latency::cells::{group_by_domain, group_by_pair, group_cells, CellRecord, Place};
use core_latency::double::{max_of, min_of, sort, Double, Op, GIB, HUNDRED, INFINITY, NAN, NINETY_NINE, ONE, TWO};
use core_latency::stats::{SampleAgg, Stats};

fn arith(op: Op, xs: &[Double]) -> Double {
    let v: Vec<f64> = xs.iter().map(|x| f64::from_bits(x.bits)).collect();
    let r = match op {
        Op::Mean => ndarray::arr1(&v).mean().unwrap(),
        Op::StdDev => ndarray::arr1(&v).std(1.0),
        Op::Sum => v[0] + v[1],
        Op::Product => v[0] * v[1],
        Op::Quotient => v[0] / v[1],
        Op::Root => v[0].sqrt(),
        Op::Count(n) => n as f64,
    };
    Double { bits: r.to_bits() }
}

fn d(x: f64) -> Double {
    Double { bits: x.to_bits() }
}

fn ds(xs: &[f64]) -> Vec<Double> {
    xs.iter().map(|&x| d(x)).collect()
}

fn compute(values: &[f64]) -> Option<Stats> {
    Stats::compute(&arith, &ds(values))
}

/// The two stages of a pair: each cell is collapsed, then the statistics are
/// taken over the collapsed values.
fn summarize_pair(cells: &[Vec<f64>], agg: SampleAgg) -> Stats {
    let collapsed: Vec<Double> = cells
        .iter()
        .filter_map(|samples| compute(samples).map(|s| agg.collapse(&s)))
        .collect();
    Stats::compute(&arith, &collapsed).expect("non-empty pair")
}

fn approx(a: Double, b: f64) {
    let a = f64::from_bits(a.bits);
    assert!((a - b).abs() < 1e-9, "expected {a} ~= {b}");
}

fn same_stats(a: &Stats, b: &Stats) {
    approx(a.mean, f64::from_bits(b.mean.bits));
    approx(a.median, f64::from_bits(b.median.bits));
    approx(a.min, f64::from_bits(b.min.bits));
    approx(a.max, f64::from_bits(b.max.bits));
    approx(a.cv_percent, f64::from_bits(b.cv_percent.bits));
}

fn rec(ping: usize, pong: usize, mem: i32, collapsed: f64) -> CellRecord {
    CellRecord {
        place: Place {
            ping_core: ping,
            pong_core: pong,
            ping_numa: 0,
            pong_numa: 0,
            mem_numa: mem,
        },
        collapsed: d(collapsed),
    }
}

fn group_matches(group: &(usize, Stats), expected: &[f64]) {
    same_stats(&group.1, &compute(expected).unwrap());
}

#[test]
fn collapse_selects_mean_or_median() {
    // Raw samples whose mean and median differ.
    let stats = compute(&[10.0, 10.0, 40.0]).unwrap();
    approx(stats.mean, 20.0);
    approx(stats.median, 10.0);
    approx(SampleAgg::Mean.collapse(&stats), 20.0);
    approx(SampleAgg::Median.collapse(&stats), 10.0);
}

#[test]
fn per_pair_equals_stats_over_collapsed_both_modes() {
    // Two cells whose per-cell mean and median differ, so the two modes
    // produce genuinely different collapsed sets (not a tautology).
    let cells = vec![vec![10.0, 10.0, 40.0], vec![20.0, 80.0, 80.0]];

    // Mean mode: collapsed = [20, 60].
    let expected_mean = compute(&[20.0, 60.0]).unwrap();
    let got_mean = summarize_pair(&cells, SampleAgg::Mean);
    same_stats(&got_mean, &expected_mean);

    // Median mode: collapsed = [10, 80].
    let expected_median = compute(&[10.0, 80.0]).unwrap();
    let got_median = summarize_pair(&cells, SampleAgg::Median);
    same_stats(&got_median, &expected_median);

    // The two modes really diverge.
    assert!((f64::from_bits(got_mean.mean.bits) - f64::from_bits(got_median.mean.bits)).abs() > 1.0);
}

#[test]
fn single_address_pair_is_degenerate() {
    // One cell -> collapsed has a single element -> min==mean==median==max, cv==0.
    let cells = vec![vec![10.0, 20.0, 30.0]];
    for agg in [SampleAgg::Mean, SampleAgg::Median] {
        let s = summarize_pair(&cells, agg);
        approx(s.cv_percent, 0.0);
        approx(s.min, f64::from_bits(s.mean.bits));
        approx(s.mean, f64::from_bits(s.median.bits));
        approx(s.median, f64::from_bits(s.max.bits));
    }
}

#[test]
fn two_address_pair_pinned_values_median_mode() {
    // Cell A median = 20, cell B median = 50 -> collapsed [20, 50].
    let cells = vec![vec![10.0, 20.0, 30.0], vec![40.0, 50.0, 60.0]];
    let s = summarize_pair(&cells, SampleAgg::Median);
    approx(s.mean, 35.0);
    approx(s.median, 35.0);
    approx(s.min, 20.0);
    approx(s.max, 50.0);
    // stddev (ddof=1) over [20,50] = sqrt(450) = 21.213203...; cv = /35*100.
    approx(s.cv_percent, 450.0_f64.sqrt() / 35.0 * 100.0);
}

#[test]
fn two_address_pair_pinned_values_mean_mode() {
    // Cell A mean = 20, cell B mean = 60 -> collapsed [20, 60].
    let cells = vec![vec![10.0, 10.0, 40.0], vec![20.0, 80.0, 80.0]];
    let s = summarize_pair(&cells, SampleAgg::Mean);
    approx(s.mean, 40.0);
    approx(s.median, 40.0);
    approx(s.min, 20.0);
    approx(s.max, 60.0);
    // stddev (ddof=1) over [20,60] = sqrt(800) = 28.284271...; cv = /40*100.
    approx(s.cv_percent, 800.0_f64.sqrt() / 40.0 * 100.0);
}

#[test]
fn group_by_domain_and_pair() {
    // 2 pairs x 2 domains, mixed address counts (so groups have different
    // sizes and the two modes are non-trivial).
    //   pair (1,0): domain 0 -> [10, 20], domain 1 -> [30, 50]
    //   pair (2,0): domain 0 -> [5],      domain 1 -> [15, 25]
    let records = vec![
        rec(1, 0, 0, 10.0),
        rec(1, 0, 0, 20.0),
        rec(1, 0, 1, 30.0),
        rec(1, 0, 1, 50.0),
        rec(2, 0, 0, 5.0),
        rec(2, 0, 1, 15.0),
        rec(2, 0, 1, 25.0),
    ];

    // per_domain: group by (ping, pong, mem_numa), first-seen order.
    let domain = group_by_domain(&arith, &records);
    assert_eq!(domain.len(), 4);
    group_matches(&domain[0], &[10.0, 20.0]);
    group_matches(&domain[1], &[30.0, 50.0]);
    group_matches(&domain[2], &[5.0]); // single-element group
    group_matches(&domain[3], &[15.0, 25.0]);
    // The single-element domain group is degenerate.
    approx(domain[2].1.cv_percent, 0.0);
    assert_eq!(domain[2].1.min, domain[2].1.max);
    // Representative record carries the group's constant key columns.
    let r0 = &records[domain[0].0].place;
    assert_eq!((r0.ping_core, r0.pong_core, r0.mem_numa), (1, 0, 0));
    let r2 = &records[domain[2].0].place;
    assert_eq!((r2.ping_core, r2.pong_core, r2.mem_numa), (2, 0, 0));

    // per_pair: flat across domains, group by (ping, pong).
    let pair = group_by_pair(&arith, &records);
    assert_eq!(pair.len(), 2);
    group_matches(&pair[0], &[10.0, 20.0, 30.0, 50.0]);
    group_matches(&pair[1], &[5.0, 15.0, 25.0]);
    let p0 = &records[pair[0].0].place;
    assert_eq!((p0.ping_core, p0.pong_core), (1, 0));

    // The same groups by keys of the caller's own.
    let keyed = group_cells(&arith, &records, |r: &CellRecord| {
        (r.place.ping_core, r.place.pong_core, r.place.mem_numa)
    });
    assert_eq!(keyed, domain);
    let keyed = group_cells(&arith, &records, |r: &CellRecord| {
        (r.place.ping_core, r.place.pong_core)
    });
    assert_eq!(keyed, pair);
    let keyed = group_cells(&arith, &records, &|r: &CellRecord| r.place.ping_core);
    assert_eq!(keyed, pair);
}

#[test]
fn group_by_single_domain_pair_is_degenerate() {
    // One pair, one domain, one address -> single collapsed value.
    let records = vec![rec(3, 1, 0, 42.0)];
    let pair = group_by_pair(&arith, &records);
    assert_eq!(pair.len(), 1);
    approx(pair[0].1.cv_percent, 0.0);
    approx(pair[0].1.min, 42.0);
    approx(pair[0].1.max, 42.0);
    approx(pair[0].1.mean, 42.0);
    approx(pair[0].1.median, 42.0);
}

#[test]
fn no_number_no_stats() {
    assert!(compute(&[]).is_none());
    assert!(compute(&[f64::NAN, -f64::NAN]).is_none());
    let s = compute(&[f64::NAN, 3.0, f64::NAN]).unwrap();
    assert_eq!((s.mean, s.median, s.min, s.max, s.cv_percent), (d(3.0), d(3.0), d(3.0), d(3.0), d(0.0)));
}

#[test]
fn stats_within_their_bounds() {
    let s = compute(&[3.0, -1.0, f64::NAN, 2.0, 8.0]).unwrap();
    assert_eq!((s.mean, s.median, s.min, s.max), (d(3.0), d(2.5), d(-1.0), d(8.0)));
    assert!(!s.median.lt(s.min) && !s.max.lt(s.median));
}

#[test]
fn variation_needs_a_positive_mean() {
    assert_eq!(compute(&[-1.0, -3.0]).unwrap().cv_percent, d(0.0));
    assert_eq!(compute(&[-1.0, 1.0]).unwrap().cv_percent, d(0.0));
    assert!(d(0.0).lt(compute(&[1.0, 3.0]).unwrap().cv_percent));
}

#[test]
fn median_of_even_and_odd() {
    assert_eq!(compute(&[4.0, 1.0]).unwrap().median, d(2.5));
    assert_eq!(compute(&[4.0, 1.0, 2.0]).unwrap().median, d(2.0));
}

#[test]
fn doubles_in_order() {
    assert_eq!(
        sort(&ds(&[2.0, f64::INFINITY, -3.5, 0.0, -f64::INFINITY])),
        ds(&[-f64::INFINITY, -3.5, 0.0, 2.0, f64::INFINITY])
    );
    // The zeros are equal, so they keep their order.
    assert_eq!(sort(&ds(&[0.0, -0.0])), ds(&[0.0, -0.0]));
    // The first of the lowest, the last of the highest.
    assert_eq!(min_of(&ds(&[0.0, -0.0])), d(0.0));
    assert_eq!(max_of(&ds(&[0.0, -0.0])), d(-0.0));
    assert_eq!(min_of(&ds(&[5.0, -2.0, 7.0])), d(-2.0));
    assert_eq!(max_of(&ds(&[5.0, -2.0, 7.0])), d(7.0));
}

#[test]
fn doubles_compare_as_floats() {
    let values = [0.0, -0.0, 1.0, -1.0, 0.5, f64::MIN_POSITIVE, f64::MAX, f64::MIN, f64::INFINITY, -f64::INFINITY, f64::NAN];
    for a in values {
        assert_eq!(d(a).is_nan(), a.is_nan());
        for b in values {
            assert_eq!(d(a).lt(d(b)), a < b, "{a} < {b}");
        }
    }
}

#[test]
fn constants_are_what_they_say() {
    assert_eq!(f64::from_bits(ONE), 1.0);
    assert_eq!(f64::from_bits(TWO), 2.0);
    assert_eq!(f64::from_bits(NINETY_NINE), 99.0);
    assert_eq!(f64::from_bits(HUNDRED), 100.0);
    assert_eq!(f64::from_bits(GIB), 1024.0 * 1024.0 * 1024.0);
    assert_eq!(f64::from_bits(INFINITY), f64::INFINITY);
    assert!(f64::from_bits(NAN).is_nan());
}

#[test]
fn groups_without_numbers_are_dropped() {
    let records = vec![rec(1, 0, 0, f64::NAN), rec(2, 0, 0, 4.0), rec(1, 0, 0, f64::NAN)];
    let pair = group_by_pair(&arith, &records);
    assert_eq!(pair.len(), 1);
    assert_eq!(pair[0].0, 1);
    assert!(group_by_pair(&arith, &[]).is_empty());
}

#[test]
fn aggregation_names() {
    assert_eq!(SampleAgg::Mean.name(), "mean");
    assert_eq!(SampleAgg::Median.name(), "median");
}
