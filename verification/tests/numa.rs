use core_latency::double::{Double, Op};
use core_latency::ids::{fmt_ranges, parse_list, sort_ids};
use core_latency::numa::MemPlacement::{Bound, Default as Def};
use core_latency::numa::{
    check_view, core_numa, feature_enabled, fmt_numa, num_nodes, num_nodes_from, online_nodes,
    shows_placement, stub, summary_info, syscall, NodeFiles, NodeInfo, Summary, Sysfs, Topology,
};
use core_latency::select::{parse_numa_specs, CoreId};
use core_latency::numa::syscall::{Answer, Pending, Progress, Stage};

fn arith(op: Op, xs: &[Double]) -> Double {
    let v: Vec<f64> = xs.iter().map(|x| f64::from_bits(x.bits)).collect();
    let r = match op {
        Op::Mean => ndarray::arr1(&v).mean().unwrap(),
        Op::StdDev => ndarray::arr1(&v).std(1.0),
        Op::Sum => v[0] + v[1],
        Op::Product => v[0] * v[1],
        Op::Quotient => v[0] / v[1],
        Op::Root => v[0].sqrt(),
        Op::Count(n) => n as f64,
    };
    Double { bits: r.to_bits() }
}

fn notation(decimals: u8, v: Double) -> String {
    format!("{:.*}", decimals as usize, f64::from_bits(v.bits))
}

fn file(s: &str) -> Option<String> {
    Some(s.to_string())
}

/// Two nodes with a gap between them.
fn two_nodes() -> Sysfs {
    Sysfs {
        root_is_dir: true,
        online: file("0,2\n"),
        nodes: vec![
            NodeFiles {
                node: 0,
                cpulist: file("0-1,4\n"),
                meminfo: file("Node 0 MemTotal:       16777216 kB\nNode 0 MemFree: 5 kB\n"),
            },
            NodeFiles {
                node: 2,
                cpulist: file("2-3\n"),
                meminfo: None,
            },
        ],
    }
}

fn no_sysfs() -> Sysfs {
    Sysfs { root_is_dir: false, online: None, nodes: vec![] }
}

fn asked(p: Progress) -> Pending {
    match p {
        Progress::Ask(p) => p,
        Progress::Done(_) => panic!("done"),
        Progress::Failed(e, _) => panic!("failed: {e}"),
    }
}

fn done(p: Progress) -> syscall::NumaBuffer {
    match p {
        Progress::Ask(_) => panic!("asks"),
        Progress::Done(b) => b,
        Progress::Failed(e, _) => panic!("failed: {e}"),
    }
}

fn failed(p: Progress) -> (String, bool) {
    match p {
        Progress::Ask(_) => panic!("asks"),
        Progress::Done(_) => panic!("done"),
        Progress::Failed(e, unmap) => (e, unmap),
    }
}

#[test]
fn parse_list_basic() {
    assert_eq!(parse_list("0"), vec![0]);
    assert_eq!(parse_list("0-3"), vec![0, 1, 2, 3]);
    assert_eq!(parse_list("0,2-3"), vec![0, 2, 3]);
    // Sorted and deduped.
    assert_eq!(parse_list("3,1,1,2"), vec![1, 2, 3]);
}

#[test]
fn parse_list_skips_malformed_tokens() {
    // Empty string and whitespace -> no ids.
    assert_eq!(parse_list(""), Vec::<usize>::new());
    assert_eq!(parse_list("  "), Vec::<usize>::new());
    // A bad token is skipped but good neighbours are kept.
    assert_eq!(parse_list("0,x,2"), vec![0, 2]);
    assert_eq!(parse_list("1,,2"), vec![1, 2]);
    // Half-open / non-numeric range bounds are dropped whole.
    assert_eq!(parse_list("1-"), Vec::<usize>::new());
    assert_eq!(parse_list("-3"), Vec::<usize>::new());
    assert_eq!(parse_list("a-b"), Vec::<usize>::new());
    // A reversed range yields nothing (a..=b is empty when a > b).
    assert_eq!(parse_list("2-1"), Vec::<usize>::new());
    // Mixed good/bad fragments.
    assert_eq!(parse_list("0-2,x,5"), vec![0, 1, 2, 5]);
}

#[test]
fn parse_list_trims_and_splits_once() {
    assert_eq!(parse_list(" 1 , 3 - 4 \n"), vec![1, 3, 4]);
    assert_eq!(parse_list("1-2-3"), Vec::<usize>::new());
    assert_eq!(parse_list("+7"), vec![7]);
    assert_eq!(parse_list("\u{a0}5\u{2003}"), vec![5]);
}

#[test]
fn num_nodes_from_empty_is_one() {
    assert_eq!(num_nodes_from(&[]), 1);
}

#[test]
fn num_nodes_from_contiguous() {
    assert_eq!(num_nodes_from(&[0]), 1);
    assert_eq!(num_nodes_from(&[0, 1]), 2);
}

#[test]
fn num_nodes_from_non_contiguous_uses_max_plus_one() {
    // Non-contiguous ids: count must cover the highest id so parse_numa's
    // `id < num_nodes` validation accepts every online node.
    assert_eq!(num_nodes_from(&[0, 3]), 4);
    assert_eq!(num_nodes_from(&[2, 5]), 6);
}

#[test]
fn every_online_node_can_be_selected() {
    let sysfs = two_nodes();
    let n = num_nodes(&sysfs);
    assert_eq!(n, 3);
    for node in online_nodes(&sysfs) {
        assert_eq!(parse_numa_specs(&[node.to_string()], n).unwrap(), vec![Bound(node)]);
    }
}

#[test]
fn ranges_shown() {
    assert_eq!(fmt_ranges(&[]), "");
    assert_eq!(fmt_ranges(&[3]), "3");
    assert_eq!(fmt_ranges(&[0, 1, 2, 5, 7, 8]), "0-2,5,7-8");
    assert_eq!(fmt_ranges(&[8, 2, 1, 2, 0]), "0-2,8");
}

#[test]
fn ranges_read_back() {
    let ids = [9, 1, 2, 3, 5, 5];
    assert_eq!(parse_list(&fmt_ranges(&ids)), sort_ids(&ids));
    assert_eq!(sort_ids(&ids), vec![1, 2, 3, 5, 9]);
}

#[test]
fn feature_needs_both() {
    assert!(feature_enabled(true, true));
    assert!(!feature_enabled(true, false));
    assert!(!feature_enabled(false, true));
}

#[test]
fn placement_shown_on_several_nodes_only() {
    assert!(shows_placement(true, 2));
    assert!(!shows_placement(true, 1));
    assert!(!shows_placement(false, 2));
}

#[test]
fn topology_from_sysfs() {
    let sysfs = two_nodes();
    assert!(syscall::available(&sysfs));
    assert!(sysfs.node_count_fits());
    assert!(syscall::mem_bytes_fit(&sysfs));
    let nodes = syscall::discover(&sysfs).nodes;
    assert_eq!(nodes.len(), 2);
    assert_eq!((nodes[0].node, nodes[0].mem_bytes), (0, 17179869184));
    assert_eq!(nodes[0].cpus, vec![0, 1, 4]);
    assert_eq!((nodes[1].node, nodes[1].mem_bytes), (2, 0));
    assert_eq!(nodes[1].cpus, vec![2, 3]);
}

#[test]
fn nothing_from_no_sysfs() {
    let sysfs = no_sysfs();
    syscall::init();
    assert!(!syscall::available(&sysfs));
    assert_eq!(online_nodes(&sysfs), Vec::<usize>::new());
    assert_eq!(num_nodes(&sysfs), 1);
    assert_eq!(syscall::node_of_cpu(&sysfs, 3), 0);
    assert_eq!(syscall::discover(&sysfs).nodes.len(), 0);
    let empty = Sysfs { root_is_dir: true, online: file("\n"), nodes: vec![] };
    assert!(!syscall::numa_available_sysfs(&empty));
}

#[test]
fn cpus_have_nodes() {
    let sysfs = two_nodes();
    assert_eq!(syscall::node_of_cpu(&sysfs, 4), 0);
    assert_eq!(syscall::node_of_cpu(&sysfs, 2), 2);
    // A cpu that no node lists is on node 0.
    assert_eq!(syscall::node_of_cpu(&sysfs, 77), 0);
    let cores = [CoreId { id: 1 }, CoreId { id: 3 }, CoreId { id: 77 }];
    let map = core_numa(true, &sysfs, &cores);
    assert_eq!(map.len(), 3);
    assert_eq!((map[&1], map[&3], map[&77]), (0, 2, 0));
    let map = core_numa(false, &sysfs, &cores);
    assert_eq!((map[&1], map[&3], map[&77]), (0, 0, 0));
}

#[test]
fn last_node_to_list_a_cpu_has_it() {
    let sysfs = Sysfs {
        root_is_dir: true,
        online: file("0-1"),
        nodes: vec![
            NodeFiles { node: 0, cpulist: file("0-3"), meminfo: None },
            NodeFiles { node: 1, cpulist: file("3"), meminfo: None },
        ],
    };
    assert_eq!(syscall::node_of_cpu(&sysfs, 3), 1);
    assert!(syscall::node_is_online(&[0, 1], 1));
    assert!(!syscall::node_is_online(&[0, 1], 2));
}

#[test]
fn meminfo_read() {
    assert_eq!(syscall::meminfo_kb("Node 0 MemTotal:   42 kB"), Some(42));
    assert_eq!(syscall::meminfo_kb("Node 0 MemFree: 1 kB\nNode 0 MemTotal: 7 kB\r\n"), Some(7));
    // A line whose number cannot be read does not end the search.
    assert_eq!(syscall::meminfo_kb("MemTotal: x kB\nMemTotal: 8 kB"), Some(8));
    assert_eq!(syscall::meminfo_kb("MemTotal:"), None);
    assert_eq!(syscall::meminfo_kb(""), None);
}

#[test]
fn memory_that_does_not_fit() {
    let mut sysfs = two_nodes();
    sysfs.nodes[1].meminfo = file("MemTotal: 18014398509481984 kB");
    assert!(!syscall::mem_bytes_fit(&sysfs));
    sysfs.nodes[1].meminfo = file("MemTotal: 18014398509481983 kB");
    assert!(syscall::mem_bytes_fit(&sysfs));
    sysfs.online = file("18446744073709551615");
    assert!(!sysfs.node_count_fits());
}

#[test]
fn summary_has_topology_with_the_feature() {
    let with = summary_info(true, &two_nodes());
    assert!(with.feature_enabled);
    assert_eq!(with.num_nodes, 3);
    assert_eq!(with.topology.unwrap().nodes.len(), 2);
    let without = summary_info(false, &two_nodes());
    assert!(!without.feature_enabled);
    assert_eq!(without.num_nodes, 3);
    assert!(without.topology.is_none());
}

#[test]
fn page_sizes() {
    assert_eq!(syscall::page_size(16384), 16384);
    assert_eq!(syscall::page_size(0), 4096);
    assert_eq!(syscall::page_size(-1), 4096);
}

#[test]
fn what_can_be_allocated() {
    assert!(syscall::alloc_fits(Def, 1, &[], 4096));
    assert!(!syscall::alloc_fits(Def, 0, &[], 4096));
    assert!(!syscall::alloc_fits(Def, usize::MAX / 64 + 1, &[], 4096));
    assert!(!syscall::alloc_fits(Def, usize::MAX / 64, &[], 4096));
    assert!(!syscall::alloc_fits(Bound(1), usize::MAX / 64, &[1], 4096));
    // A node that is not online is refused before pages are counted.
    assert!(syscall::alloc_fits(Bound(1), usize::MAX / 64, &[0], 4096));
    assert_eq!(
        failed(syscall::NumaBuffer::allocate(Bound(1), usize::MAX / 64, &[0], 4096)),
        ("NUMA node 1 is not online on this host".to_string(), false)
    );
    assert!(!syscall::alloc_fits(Bound(1), usize::MAX / 64 + 1, &[0], 4096));
    assert!(stub::alloc_fits(usize::MAX / 64));
    assert!(!stub::alloc_fits(usize::MAX / 64 + 1));
    assert!(!stub::alloc_fits(0));
}

#[test]
fn whole_pages_are_asked_for() {
    let len = |lines: usize| asked(syscall::NumaBuffer::allocate(Def, lines, &[], 4096)).len;
    assert_eq!(len(1), 4096);
    assert_eq!(len(64), 4096);
    assert_eq!(len(65), 8192);
    let p = asked(syscall::NumaBuffer::alloc_real(Def, 4097, &[], 4096));
    assert_eq!((p.len, p.page, p.stage), (8192, 4096, Stage::Mapping));
}

#[test]
fn bound_buffer_allocated() {
    let p = asked(syscall::NumaBuffer::allocate(Bound(2), 65, &[0, 2], 4096));
    assert_eq!(p.stage, Stage::Mapping);
    let p = asked(syscall::NumaBuffer::resume(p, Answer::Mapped(true)));
    assert_eq!(p.stage, Stage::Binding);
    let p = asked(syscall::NumaBuffer::resume(p, Answer::Bound(0, "Success".to_string())));
    assert_eq!(p.stage, Stage::Touching);
    let p = asked(syscall::NumaBuffer::resume(p, Answer::Touched));
    assert_eq!(p.stage, Stage::Querying);
    let b = done(syscall::NumaBuffer::resume(p, Answer::Queried(0, String::new(), vec![2, 2])));
    assert_eq!((b.len, b.node(), b.spanned()), (8192, 2, false));
}

#[test]
fn bound_buffer_refused() {
    let start = || asked(syscall::NumaBuffer::allocate(Bound(2), 65, &[0, 2], 4096));
    let mapped = || asked(syscall::NumaBuffer::resume(start(), Answer::Mapped(true)));
    let bound = || {
        asked(syscall::NumaBuffer::resume(mapped(), Answer::Bound(0, String::new())))
    };
    let touched = || asked(syscall::NumaBuffer::resume(bound(), Answer::Touched));
    let os = || "Operation not permitted (os error 1)".to_string();
    assert_eq!(
        failed(syscall::NumaBuffer::allocate(Bound(1), 65, &[0, 2], 4096)),
        ("NUMA node 1 is not online on this host".to_string(), false)
    );
    assert_eq!(
        failed(syscall::NumaBuffer::resume(start(), Answer::Mapped(false))),
        ("mmap of 8192 bytes failed (placement Bound(2))".to_string(), false)
    );
    assert_eq!(
        failed(syscall::NumaBuffer::resume(mapped(), Answer::Bound(-1, os()))),
        (
            "mbind(MPOL_BIND, node 2) failed: Operation not permitted (os error 1)".to_string(),
            true
        )
    );
    // Only -1 is a failure.
    assert_eq!(
        asked(syscall::NumaBuffer::resume(mapped(), Answer::Bound(1, os()))).stage,
        Stage::Touching
    );
    assert_eq!(
        failed(syscall::NumaBuffer::resume(touched(), Answer::Queried(-1, os(), vec![-1, -1]))),
        (
            "move_pages query failed: Operation not permitted (os error 1); cannot verify placement on node 2"
                .to_string(),
            true
        )
    );
    assert_eq!(
        failed(syscall::NumaBuffer::resume(touched(), Answer::Queried(0, os(), vec![2, -14]))),
        (
            "buffer requested on node 2 but did not land there (move_pages status=[2, -14])"
                .to_string(),
            true
        )
    );
}

#[test]
fn default_buffer_takes_what_comes() {
    let start = || asked(syscall::NumaBuffer::allocate(Def, 129, &[], 4096));
    let touched = || {
        let p = asked(syscall::NumaBuffer::resume(start(), Answer::Mapped(true)));
        assert_eq!(p.stage, Stage::Touching);
        asked(syscall::NumaBuffer::resume(p, Answer::Touched))
    };
    let query = |rc: i64, status: Vec<i32>| {
        let b = done(syscall::NumaBuffer::resume(
            touched(),
            Answer::Queried(rc, "why".to_string(), status),
        ));
        assert_eq!(b.len, 12288);
        (b.node(), b.spanned())
    };
    assert_eq!(query(-1, vec![5, 6, 7]), (-1, false));
    assert_eq!(query(0, vec![1, 1, 1]), (1, false));
    assert_eq!(query(0, vec![-14, 1, 0]), (1, true));
    assert_eq!(query(0, vec![-14, 3, -2]), (3, false));
    assert_eq!(query(0, vec![-14, -2, -2]), (-1, false));
    assert_eq!(
        failed(syscall::NumaBuffer::resume(start(), Answer::Mapped(false))),
        ("mmap of 12288 bytes failed (placement Default)".to_string(), false)
    );
}

#[test]
fn masks() {
    let m = syscall::node_mask(0, 64);
    assert_eq!((m.words, m.maxnode), (vec![1], 64));
    let m = syscall::node_mask(63, 64);
    assert_eq!((m.words, m.maxnode), (vec![1 << 63], 64));
    let m = syscall::node_mask(65, 64);
    assert_eq!((m.words, m.maxnode), (vec![0, 2], 128));
    let m = syscall::node_mask(65, 32);
    assert_eq!((m.words, m.maxnode), (vec![0, 0, 2], 96));
}

#[test]
fn stub_has_one_domain() {
    stub::init();
    assert!(!stub::available());
    assert_eq!(stub::node_of_cpu(7), 0);
    assert_eq!(stub::discover().nodes.len(), 0);
    assert_eq!(
        stub::NumaBuffer::allocate(Bound(1), 1).unwrap_err(),
        "NUMA placement on node 1 requires the `numa` build feature"
    );
    assert_eq!(stub::NumaBuffer::allocate(Def, 3), Ok(192));
    let b = stub::NumaBuffer::resume(192, stub::HeapAnswer::Taken).unwrap();
    assert_eq!((b.len, b.node(), b.spanned()), (192, 0, false));
    assert_eq!(
        stub::NumaBuffer::resume(192, stub::HeapAnswer::Exhausted).unwrap_err(),
        "heap allocation failed"
    );
    assert_eq!(
        stub::NumaBuffer::resume(192, stub::HeapAnswer::BadLayout("too large".to_string()))
            .unwrap_err(),
        "bad layout: too large"
    );
}

#[test]
fn views_of_a_buffer() {
    assert_eq!(check_view(4096, 8192, 64, 64, 64), Ok(()));
    assert_eq!(check_view(4096, 8192, 64, 64, 65).unwrap_err(), "NumaBuffer too small: need 64*65 bytes, have 4096");
    assert_eq!(check_view(4096, 8192, 64, 128, 1).unwrap_err(), "T over-aligned for NumaBuffer");
    assert_eq!(check_view(4096, 8200, 64, 64, 1).unwrap_err(), "NumaBuffer not aligned for T");
    assert_eq!(
        check_view(4096, 8192, 64, 64, usize::MAX).unwrap_err(),
        "NumaBuffer too small: need 64*18446744073709551615 bytes, have 4096"
    );
}

#[test]
fn host_with_one_domain() {
    let summary = Summary { feature_enabled: true, num_nodes: 1, topology: None };
    assert_eq!(
        fmt_numa(&arith, &notation, &summary, &[Def], false),
        "NUMA: not detected (single domain)\n"
    );
}

#[test]
fn host_without_the_feature() {
    let summary = Summary { feature_enabled: false, num_nodes: 2, topology: None };
    assert_eq!(
        fmt_numa(&arith, &notation, &summary, &[Def], false),
        "NUMA: 2 nodes detected; binary built without the `numa` feature\n\u{1b}[1;33mWARN: 2 NUMA nodes detected but this binary was not built with the 'numa' feature. Rebuild with `cargo build --release --features numa` (Linux only) and pass --numa <node(s)> to pin placement. Running with kernel-default first-touch placement, which may vary run-to-run.\u{1b}[0m\n"
    );
}

#[test]
fn host_with_topology() {
    let summary = Summary {
        feature_enabled: true,
        num_nodes: 2,
        topology: Some(Topology {
            nodes: vec![
                NodeInfo { node: 0, cpus: vec![0, 1, 2, 8], mem_bytes: 17448304640 },
                NodeInfo { node: 1, cpus: vec![], mem_bytes: 0 },
            ],
        }),
    };
    assert_eq!(
        fmt_numa(&arith, &notation, &summary, &[Bound(0), Bound(1)], true),
        "NUMA: 2 node(s)\n  node 0: 4 cpus [0-2,8], 16.2 GB\n  node 1: 0 cpus [], ? GB\n  Memory domains under test: 0,1\n"
    );
    assert_eq!(
        fmt_numa(&arith, &notation, &summary, &[Def], false),
        "NUMA: 2 node(s)\n  node 0: 4 cpus [0-2,8], 16.2 GB\n  node 1: 0 cpus [], ? GB\n  Memory domains under test: default\n\u{1b}[1;33mWARN: 2 NUMA nodes detected but --numa was not given. The shared cache lines use kernel-default first-touch placement, so results may vary run-to-run. Pass --numa <node(s)> to pin placement.\u{1b}[0m\n"
    );
}

#[test]
fn ranges_are_the_shortest() {
    // Every text over a few characters that names the same ids is no shorter
    // and has no fewer parts.
    for ids in [vec![0, 1], vec![0, 1, 2], vec![0, 2], vec![1], vec![0, 1, 2, 4]] {
        let best = fmt_ranges(&ids);
        let mut texts = vec![String::new()];
        for _ in 0..best.len() {
            texts = texts
                .iter()
                .flat_map(|t| "0124,- ".chars().map(move |c| format!("{t}{c}")))
                .chain(texts.iter().cloned())
                .collect();
            texts.sort();
            texts.dedup();
        }
        for text in texts.iter().filter(|t| parse_list(t) == ids) {
            assert!(text.len() >= best.len(), "{text}");
            assert!(text.split(',').count() >= best.split(',').count(), "{text}");
        }
    }
}

#[test]
fn ranges_depend_on_the_set_alone() {
    assert_eq!(fmt_ranges(&[4, 2, 3, 2, 9]), "2-4,9");
    assert_eq!(fmt_ranges(&[9, 9, 4, 3, 2]), "2-4,9");
    assert_eq!(fmt_ranges(&[usize::MAX, usize::MAX - 1, 0]), "0,18446744073709551614-18446744073709551615");
}

#[test]
fn joined_lists_are_the_union() {
    for (a, b) in [("0-2", "2-3,9"), (" 1 ", " x"), ("", "5"), ("3,", ",4 "), (" ", "\t")] {
        let mut both = parse_list(a);
        both.extend(parse_list(b));
        assert_eq!(parse_list(&format!("{a},{b}")), sort_ids(&both));
    }
}

#[test]
fn nodes_of_cpus_are_covered() {
    for sysfs in [two_nodes(), no_sysfs()] {
        for cpu in 0..8 {
            assert!(syscall::node_of_cpu(&sysfs, cpu) < num_nodes(&sysfs));
        }
    }
}
