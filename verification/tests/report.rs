use core_latency::cells::{CellRecord, PerAddressRow, Place};
use core_latency::double::{Double, Op, NAN};
use core_latency::report::{create_csv, csv_path, find_extreme, finish, latency_matrix, Extreme, Report};
use core_latency::select::CoreId;
use core_latency::stats::{SampleAgg, Stats};
use core_latency::sweep::Tally;

fn arith(op: Op, xs: &[Double]) -> Double {
    let v: Vec<f64> = xs.iter().map(|x| f64::from_bits(x.bits)).collect();
    let r = match op {
        Op::Mean => ndarray::arr1(&v).mean().unwrap(),
        Op::StdDev => ndarray::arr1(&v).std(1.0),
        Op::Sum => v[0] + v[1],
        Op::Product => v[0] * v[1],
        Op::Quotient => v[0] / v[1],
        Op::Root => v[0].sqrt(),
        Op::Count(n) => n as f64,
    };
    Double { bits: r.to_bits() }
}

fn notation(decimals: u8, v: Double) -> String {
    format!("{:.*}", decimals as usize, f64::from_bits(v.bits))
}

fn d(x: f64) -> Double {
    Double { bits: x.to_bits() }
}

fn cores(ids: &[usize]) -> Vec<CoreId> {
    ids.iter().map(|&id| CoreId { id }).collect()
}

fn at(ping: usize, pong: usize, mem: i32) -> Place {
    Place { ping_core: ping, pong_core: pong, ping_numa: 0, pong_numa: 1, mem_numa: mem }
}

fn stats(x: f64) -> Stats {
    Stats { mean: d(x), median: d(x + 1.0), min: d(x - 1.0), max: d(x + 2.0), cv_percent: d(0.5) }
}

/// Two pairs in two domains.
fn measured() -> Tally {
    let places = [at(2, 0, 0), at(5, 0, 0), at(2, 0, -1), at(5, 0, -1)];
    let values = [10.0, 40.0, 20.0, 60.0];
    let mut tally = Tally::new();
    for (i, (place, value)) in places.into_iter().zip(values).enumerate() {
        tally.records.push(CellRecord { place, collapsed: d(value) });
        tally.rows.push(PerAddressRow {
            place,
            address: i,
            vaddr: 0x7f00 + i,
            stats: stats(value),
        });
    }
    tally.sum = d(90.0);
    tally.count = 4;
    tally
}

fn report(csv: bool, symmetric: bool, num_domains: usize, tally: &Tally) -> Report {
    finish(
        &arith,
        &notation,
        &cores(&[0, 2, 5]),
        symmetric,
        csv,
        "out/report",
        "cas",
        num_domains,
        tally,
    )
}

#[test]
fn summary_of_a_run() {
    assert_eq!(
        report(false, true, 2, &measured()).summary,
        "\n    \u{1b}[2;37mMedian-based stats\u{1b}[0m (robust to outliers):\n      Min  latency: \u{1b}[1;37m15.0\u{1b}[0mns cores: (2,0)\n      Max  latency: \u{1b}[1;37m50.0\u{1b}[0mns cores: (5,0)\n    \u{1b}[2;37mMean-based stats\u{1b}[0m (sensitive to outliers):\n      Min  latency: \u{1b}[1;37m15.0\u{1b}[0mns cores: (2,0)\n      Max  latency: \u{1b}[1;37m50.0\u{1b}[0mns cores: (5,0)\n    Overall mean latency: \u{1b}[1;37m22.5\u{1b}[0mns\n"
    );
}

#[test]
fn summary_of_nothing() {
    assert_eq!(
        report(false, true, 1, &Tally::new()).summary,
        "\n    \u{1b}[2;37mMedian-based stats\u{1b}[0m (robust to outliers):\n    \u{1b}[2;37mMean-based stats\u{1b}[0m (sensitive to outliers):\n"
    );
}

#[test]
fn no_files_without_csv() {
    let r = report(false, true, 2, &measured());
    assert!(r.files.is_empty());
    assert_eq!(r.matrix, "");
}

#[test]
fn files_of_a_run() {
    let r = report(true, true, 2, &measured());
    assert_eq!(r.files.len(), 3);
    assert_eq!(r.files[0].path, "out/report.cas.per_address.csv");
    assert_eq!(
        r.files[0].content,
        "ping_core,pong_core,ping_numa,pong_numa,mem_numa,address,vaddr,mean_latency,median_latency,min_latency,max_latency,cv_percent\n2,0,0,1,0,0,0x7f00,10.00,11.00,9.00,12.00,0.50\n5,0,0,1,0,1,0x7f01,40.00,41.00,39.00,42.00,0.50\n2,0,0,1,-1,2,0x7f02,20.00,21.00,19.00,22.00,0.50\n5,0,0,1,-1,3,0x7f03,60.00,61.00,59.00,62.00,0.50\n"
    );
    assert_eq!(r.files[1].path, "out/report.cas.per_domain.csv");
    assert_eq!(
        r.files[1].content,
        "ping_core,pong_core,ping_numa,pong_numa,mem_numa,mean_latency,median_latency,min_latency,max_latency,cv_percent\n2,0,0,1,0,10.00,10.00,10.00,10.00,0.00\n5,0,0,1,0,40.00,40.00,40.00,40.00,0.00\n2,0,0,1,-1,20.00,20.00,20.00,20.00,0.00\n5,0,0,1,-1,60.00,60.00,60.00,60.00,0.00\n"
    );
    assert_eq!(r.files[2].path, "out/report.cas.per_pair.csv");
    assert_eq!(
        r.files[2].content,
        "ping_core,pong_core,ping_numa,pong_numa,mean_latency,median_latency,min_latency,max_latency,cv_percent\n2,0,0,1,15.00,15.00,10.00,20.00,47.14\n5,0,0,1,50.00,50.00,40.00,60.00,28.28\n"
    );
}

#[test]
fn per_domain_file_for_several_domains_only() {
    let paths: Vec<String> =
        report(true, true, 1, &measured()).files.into_iter().map(|f| f.path).collect();
    assert_eq!(paths, vec!["out/report.cas.per_address.csv", "out/report.cas.per_pair.csv"]);
}

#[test]
fn matrix_of_a_symmetric_run() {
    assert_eq!(
        report(true, true, 2, &measured()).matrix,
        ",0,2,5\n0,,15.0,50.0\n2,15.0,,\n5,50.0,,\n"
    );
}

#[test]
fn matrix_of_a_one_way_run() {
    assert_eq!(
        report(true, false, 2, &measured()).matrix,
        ",0,2,5\n0,,,\n2,15.0,,\n5,50.0,,\n"
    );
}

#[test]
fn symmetric_matrix_is_its_own_mirror() {
    let records = [
        CellRecord { place: at(2, 0, 0), collapsed: d(0.0) },
        CellRecord { place: at(5, 9, 0), collapsed: d(0.0) },
    ];
    let groups = [(0, stats(3.0)), (1, stats(4.0))];
    let m = latency_matrix(&cores(&[0, 2, 5]), &records, &groups, true);
    for i in 0..3 {
        for j in 0..3 {
            assert_eq!(m[i][j], m[j][i]);
        }
    }
    assert_eq!(m[1][0], d(3.0));
    // A pair with a core that was not selected has no place in the matrix.
    assert_eq!(m[2], vec![Double { bits: NAN }; 3]);
}

#[test]
fn first_of_equal_extremes() {
    let records = [
        CellRecord { place: at(1, 0, 0), collapsed: d(0.0) },
        CellRecord { place: at(2, 0, 0), collapsed: d(0.0) },
        CellRecord { place: at(3, 0, 0), collapsed: d(0.0) },
    ];
    let groups = [(0, stats(7.0)), (1, stats(5.0)), (2, stats(5.0))];
    assert_eq!(
        find_extreme(&records, &groups, SampleAgg::Mean, true),
        Some(Extreme { value: d(5.0), ping: 2, pong: 0 })
    );
    assert_eq!(
        find_extreme(&records, &groups, SampleAgg::Median, false),
        Some(Extreme { value: d(8.0), ping: 1, pong: 0 })
    );
    assert_eq!(find_extreme(&records, &[], SampleAgg::Mean, true), None);
}

#[test]
fn csv_file_created_or_not() {
    let path = csv_path("report", "cas", "per_pair");
    assert_eq!(path, "report.cas.per_pair.csv");
    assert_eq!(
        create_csv(&path, Ok(7)),
        (Some(7), "    Writing CSV: report.cas.per_pair.csv\n".to_string())
    );
    assert_eq!(
        create_csv::<u8>(&path, Err("Permission denied (os error 13)".to_string())),
        (
            None,
            "    ERROR: Failed to create report.cas.per_pair.csv: Permission denied (os error 13)\n"
                .to_string()
        )
    );
}
