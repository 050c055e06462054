use core_latency::cells::{group_by_domain, group_by_pair, CellRecord, PerAddressRow, Place};
use core_latency::double::{Double, Op};
use core_latency::numa::Placed;
use core_latency::select::CoreId;
use core_latency::stats::{SampleAgg, Stats};
use core_latency::sweep::{
    core_node, domain_placed, fmt_mem_numa, place, schedule, Settings, Step, Tally,
};
use std::collections::HashMap;

fn arith(op: Op, xs: &[Double]) -> Double {
    let v: Vec<f64> = xs.iter().map(|x| f64::from_bits(x.bits)).collect();
    let r = match op {
        Op::Mean => ndarray::arr1(&v).mean().unwrap(),
        Op::StdDev => ndarray::arr1(&v).std(1.0),
        Op::Sum => v[0] + v[1],
        Op::Product => v[0] * v[1],
        Op::Quotient => v[0] / v[1],
        Op::Root => v[0].sqrt(),
        Op::Count(n) => n as f64,
    };
    Double { bits: r.to_bits() }
}

fn notation(decimals: u8, v: Double) -> String {
    format!("{:.*}", decimals as usize, f64::from_bits(v.bits))
}

fn d(x: f64) -> Double {
    Double { bits: x.to_bits() }
}

fn ds(xs: &[f64]) -> Vec<Double> {
    xs.iter().map(|&x| d(x)).collect()
}

fn cores(ids: &[usize]) -> Vec<CoreId> {
    ids.iter().map(|&id| CoreId { id }).collect()
}

fn lines(all: &[&str]) -> String {
    all.iter().map(|l| format!("{l}\n")).collect()
}

/// The steps as text, a measurement as its numbers.
fn script(steps: Vec<Step>) -> String {
    steps
        .into_iter()
        .map(|step| match step {
            Step::Print(s) => s,
            Step::Measure { domain, ping, pong } => format!("<{domain}:{ping},{pong}>"),
        })
        .collect()
}

fn here() -> Place {
    Place { ping_core: 1, pong_core: 0, ping_numa: 0, pong_numa: 0, mem_numa: 0 }
}

fn settings(num_addresses: usize, num_samples: u32, csv: bool) -> Settings {
    Settings { num_addresses, num_samples, sample_agg: SampleAgg::Median, csv }
}

const UNKNOWN: Placed = Placed { node: 0, spanned: false };

#[test]
fn symmetric_sweep() {
    assert_eq!(
        script(schedule(&cores(&[0, 7, 12]), true, false, &[UNKNOWN], 1)),
        lines(&[
            "           0        7       12    ",
            "      0",
            "      7<0:1,0>",
            "     12<0:2,0><0:2,1>",
        ])
    );
    let columns = format!(" {: >4}{: >4} {: >4}{: >4}", 123, "", 12345, "");
    assert_eq!(
        script(schedule(&cores(&[123, 12345]), true, false, &[UNKNOWN], 1)),
        lines(&[&format!("    {: >3}{columns}", ""), "    123", "    12345<0:1,0>"])
    );
}

#[test]
fn full_sweep_has_gaps() {
    assert_eq!(
        script(schedule(&cores(&[3, 5]), false, false, &[UNKNOWN], 1)),
        lines(&[
            "           3        5    ",
            "      3         <0:0,1>",
            "      5<0:1,0>         ",
        ])
    );
}

#[test]
fn each_pair_measured_once_in_each_domain() {
    let measured = |symmetric: bool| -> Vec<(usize, usize, usize)> {
        schedule(&cores(&[0, 1, 2, 3]), symmetric, true, &[], 3)
            .into_iter()
            .filter_map(|s| match s {
                Step::Print(_) => None,
                Step::Measure { domain, ping, pong } => Some((domain, ping, pong)),
            })
            .collect()
    };
    for symmetric in [true, false] {
        let all = measured(symmetric);
        assert_eq!(all.len(), if symmetric { 18 } else { 36 });
        for m in &all {
            assert_eq!(all.iter().filter(|x| *x == m).count(), 1);
            let back = (m.0, m.2, m.1);
            assert_eq!(all.contains(&back), !symmetric);
        }
    }
}

#[test]
fn placement_shown() {
    let placed = [Placed { node: 1, spanned: false }];
    assert_eq!(
        script(schedule(&cores(&[0]), true, true, &placed, 1)),
        "    \u{1b}[2;37mMemory domain:\u{1b}[0m NUMA node 1\n           0    \n      0\n"
    );
    let placed = [Placed { node: -1, spanned: true }];
    assert_eq!(
        script(schedule(&cores(&[]), true, true, &placed, 2)),
        "\n    \u{1b}[2;37mMemory domain:\u{1b}[0m memory placement unverified\n    \u{1b}[1;33mWARN: this domain's shared buffer landed on more than one NUMA node (default first-touch). Latencies mix local and remote access; pass --numa <node> to pin placement.\u{1b}[0m\n       \n\n    \u{1b}[2;37mMemory domain:\u{1b}[0m NUMA node 0\n       \n"
    );
    assert_eq!(script(schedule(&cores(&[1, 2]), true, true, &placed, 0)), "");
}

#[test]
fn memory_nodes_shown() {
    assert_eq!(fmt_mem_numa(-1), "memory placement unverified");
    assert_eq!(fmt_mem_numa(0), "NUMA node 0");
    assert_eq!(fmt_mem_numa(12), "NUMA node 12");
}

#[test]
fn places() {
    let placed = [Placed { node: 4, spanned: true }];
    assert_eq!(domain_placed(&placed, 0), placed[0]);
    assert_eq!(domain_placed(&placed, 1), UNKNOWN);
    let nodes: HashMap<usize, i32> = [(8, 2)].into_iter().collect();
    assert_eq!(core_node(&nodes, 8), 2);
    assert_eq!(core_node(&nodes, 9), 0);
    assert_eq!(
        place(&nodes, &placed, 0, CoreId { id: 8 }, CoreId { id: 9 }),
        Place { ping_core: 8, pong_core: 9, ping_numa: 2, pong_numa: 0, mem_numa: 4 }
    );
    assert_eq!(place(&nodes, &placed, 5, CoreId { id: 8 }, CoreId { id: 8 }).mem_numa, 0);
}

#[test]
fn entry_of_a_pair() {
    let mut tally = Tally::new();
    let entry = tally.add_pair(
        &arith,
        &notation,
        settings(1, 4, false),
        here(),
        &[],
        &[ds(&[1000.0, 10.0, 20.0, 30.0, 40.0])],
    );
    // Mean 25; deviation sqrt(500/3) = 12.9, halved.
    assert_eq!(entry, " \u{1b}[1;37m  25\u{1b}[0m\u{1b}[2;37m+-6 \u{1b}[0m");
    assert_eq!((tally.sum, tally.count), (d(100.0), 4));
    assert_eq!(tally.records, vec![CellRecord { place: here(), collapsed: d(25.0) }]);
    assert!(tally.rows.is_empty());
}

#[test]
fn deviation_is_capped() {
    let entry = |samples: &[f64]| {
        let n = samples.len() as u32 - 1;
        Tally::new().add_pair(&arith, &notation, settings(1, n, false), here(), &[], &[ds(samples)])
    };
    // Deviation 707, capped to 99, by the root of 2.
    assert_eq!(
        entry(&[0.0, 0.0, 1000.0]),
        " \u{1b}[1;37m 500\u{1b}[0m\u{1b}[2;37m+-70\u{1b}[0m"
    );
    // One sample has no deviation, which counts as 99.
    assert_eq!(
        entry(&[0.0, 12345.0]),
        " \u{1b}[1;37m12345\u{1b}[0m\u{1b}[2;37m+-99\u{1b}[0m"
    );
}

#[test]
fn addresses_are_averaged_and_kept_apart() {
    let mut tally = Tally::new();
    let entry = tally.add_pair(
        &arith,
        &notation,
        settings(2, 3, true),
        here(),
        &[0x40],
        &[ds(&[9.0, 10.0, 10.0, 40.0]), ds(&[9.0, 30.0, 30.0, 60.0])],
    );
    // Averages 20, 20, 50: mean 30, deviation 17.3 by the root of 3.
    assert_eq!(entry, " \u{1b}[1;37m  30\u{1b}[0m\u{1b}[2;37m+-10\u{1b}[0m");
    assert_eq!((tally.sum, tally.count), (d(180.0), 6));
    assert_eq!(tally.records.len(), 2);
    assert_eq!((tally.records[0].collapsed, tally.records[1].collapsed), (d(10.0), d(30.0)));
    assert_eq!(tally.rows.len(), 2);
    assert_eq!((tally.rows[0].address, tally.rows[0].vaddr), (0, 0x40));
    assert_eq!((tally.rows[1].address, tally.rows[1].vaddr), (1, 0));
}

#[test]
fn rows_match_records() {
    for agg in [SampleAgg::Mean, SampleAgg::Median] {
        let mut tally = Tally::new();
        let s = Settings { sample_agg: agg, ..settings(2, 3, true) };
        for _ in 0..2 {
            tally.add_pair(
                &arith,
                &notation,
                s,
                here(),
                &[],
                &[ds(&[0.0, 1.0, 1.0, 7.0]), ds(&[0.0, f64::NAN, f64::NAN, f64::NAN])],
            );
        }
        assert_eq!(tally.count, 12);
        assert_eq!((tally.records.len(), tally.rows.len()), (2, 2));
        for (record, row) in tally.records.iter().zip(&tally.rows) {
            let PerAddressRow { place, stats, .. } = row;
            let Stats { mean, median, .. } = stats;
            assert_eq!(record.place, *place);
            assert_eq!(record.collapsed, if agg == SampleAgg::Mean { *mean } else { *median });
        }
    }
}

#[test]
fn rows_do_not_depend_on_collapsing() {
    let rows = |agg: SampleAgg| {
        let mut tally = Tally::new();
        let s = Settings { sample_agg: agg, ..settings(2, 3, true) };
        tally.add_pair(
            &arith,
            &notation,
            s,
            here(),
            &[],
            &[ds(&[0.0, 1.0, 1.0, 7.0]), ds(&[0.0, 2.0, 5.0, 5.0])],
        );
        (tally.rows, tally.records)
    };
    let (mean_rows, mean_records) = rows(SampleAgg::Mean);
    let (median_rows, median_records) = rows(SampleAgg::Median);
    assert_eq!(mean_rows, median_rows);
    assert_ne!(mean_records, median_records);
}

/// Takes every step of a sweep, with durations that tell the cells apart.
fn whole_run(symmetric: bool, num_domains: usize, num_addresses: usize, missing: usize) -> Tally {
    let cores = cores(&[4, 9, 2]);
    let placed: Vec<Placed> =
        (0..num_domains).map(|d| Placed { node: d as i32, spanned: false }).collect();
    let nodes: HashMap<usize, i32> = HashMap::new();
    let mut tally = Tally::new();
    for step in schedule(&cores, symmetric, false, &placed, num_domains) {
        if let Step::Measure { domain, ping, pong } = step {
            let durations: Vec<Vec<Double>> = (0..num_addresses)
                .map(|a| {
                    let cell = ((domain * 3 + ping) * 3 + pong) * num_addresses + a;
                    let x = if cell == missing { f64::NAN } else { cell as f64 };
                    ds(&[0.0, x, x])
                })
                .collect();
            let place = place(&nodes, &placed, domain, cores[ping], cores[pong]);
            tally.add_pair(
                &arith,
                &notation,
                settings(num_addresses, 2, true),
                place,
                &[],
                &durations,
            );
        }
    }
    tally
}

#[test]
fn whole_run_has_a_record_per_cell() {
    for symmetric in [true, false] {
        let pairs = if symmetric { 3 } else { 6 };
        let tally = whole_run(symmetric, 2, 2, usize::MAX);
        assert_eq!(tally.records.len(), 2 * pairs * 2);
        assert_eq!(tally.rows.len(), 2 * pairs * 2);
        assert_eq!(tally.count, 2 * pairs as u64 * 2 * 2);
        let mut values: Vec<u64> = tally.records.iter().map(|r| r.collapsed.bits).collect();
        values.sort();
        values.dedup();
        assert_eq!(values.len(), 2 * pairs * 2);
        let groups = group_by_pair(&arith, &tally.records);
        assert_eq!(groups.len(), pairs);
        assert_eq!(group_by_domain(&arith, &tally.records).len(), 2 * pairs);
    }
}

#[test]
fn cell_without_a_number_is_left_out() {
    // The cell of domain 1, positions 2 and 0, address 1.
    let missing = ((3 + 2) * 3) * 2 + 1;
    let all = whole_run(true, 2, 2, usize::MAX);
    let less = whole_run(true, 2, 2, missing);
    let expected: Vec<CellRecord> =
        all.records.iter().copied().filter(|r| r.collapsed != d(missing as f64)).collect();
    assert_eq!(less.records, expected);
    assert_eq!(less.records.len(), all.records.len() - 1);
}
