use core_latency::numa::MemPlacement;
use core_latency::numa::MemPlacement::{Bound, Default as Def};
use core_latency::select::{
    fmt_domains, ids_of, parse_cores, parse_numa, parse_numa_specs, try_parse_cores, CoreId,
};

fn s(items: &[&str]) -> Vec<String> {
    items.iter().map(|x| x.to_string()).collect()
}

fn cores(ids: &[usize]) -> Vec<CoreId> {
    ids.iter().map(|&id| CoreId { id }).collect()
}

fn refused(items: &[&str], num_nodes: usize) -> String {
    parse_numa_specs(&s(items), num_nodes).unwrap_err()
}

#[test]
fn empty_specs_is_default() {
    assert_eq!(parse_numa(false, &[], 4).unwrap(), vec![Def]);
    assert_eq!(parse_numa(true, &[], 4).unwrap(), vec![Def]);
}

#[test]
fn single_id() {
    assert_eq!(parse_numa_specs(&s(&["1"]), 4).unwrap(), vec![Bound(1)]);
}

#[test]
fn comma_list() {
    assert_eq!(parse_numa_specs(&s(&["0", "2"]), 4).unwrap(), vec![Bound(0), Bound(2)]);
}

#[test]
fn range() {
    assert_eq!(
        parse_numa_specs(&s(&["0-3"]), 4).unwrap(),
        vec![Bound(0), Bound(1), Bound(2), Bound(3)]
    );
}

#[test]
fn mixed() {
    assert_eq!(
        parse_numa_specs(&s(&["1", "3-5"]), 8).unwrap(),
        vec![Bound(1), Bound(3), Bound(4), Bound(5)]
    );
}

#[test]
fn all_expands() {
    assert_eq!(parse_numa_specs(&s(&["all"]), 2).unwrap(), vec![Bound(0), Bound(1)]);
}

#[test]
fn all_cannot_combine() {
    assert!(parse_numa_specs(&s(&["all", "1"]), 4).is_err());
}

#[test]
fn duplicate_errors() {
    assert!(parse_numa_specs(&s(&["0", "0"]), 4).is_err());
}

#[test]
fn reversed_range_errors() {
    assert!(parse_numa_specs(&s(&["3-1"]), 4).is_err());
}

#[test]
fn non_numeric_errors() {
    assert!(parse_numa_specs(&s(&["x"]), 4).is_err());
}

#[test]
fn out_of_range_mentions_node_count() {
    let err = parse_numa_specs(&s(&["7"]), 2).unwrap_err();
    assert!(err.contains("2 node(s)"), "error was: {err}");
}

#[test]
fn feature_off_rejects_explicit_numa() {
    let err = parse_numa(false, &s(&["0"]), 4).unwrap_err();
    assert!(err.contains("--features numa"), "error was: {err}");
    assert_eq!(
        err,
        "--numa requires the `numa` build feature; rebuild with `cargo build --release --features numa` (Linux only)"
    );
}

#[test]
fn feature_on_parses_specs() {
    assert_eq!(parse_numa(true, &s(&["0"]), 4).unwrap(), vec![Bound(0)]);
    assert_eq!(parse_numa(true, &s(&["4"]), 4).unwrap_err(), refused(&["4"], 4));
}

#[test]
fn domain_errors_word_for_word() {
    assert_eq!(refused(&["1", " all "], 4), "'all' cannot be combined with other --numa specs");
    assert_eq!(refused(&["x-2"], 4), "Invalid range start in 'x-2': 'x'");
    assert_eq!(refused(&["1-y"], 4), "Invalid range end in '1-y': 'y'");
    assert_eq!(refused(&["1-2-3"], 4), "Invalid range end in '1-2-3': '2-3'");
    assert_eq!(refused(&[" 3-1 "], 4), "Invalid range '3-1': start (3) > end (1)");
    assert_eq!(refused(&[""], 4), "Invalid NUMA domain id: ''");
    assert_eq!(refused(&["1-3", "2"], 4), "Duplicate NUMA domain id: 2");
    assert_eq!(refused(&["7"], 2), "NUMA domain 7 not found; system has 2 node(s) (0..1)");
    assert_eq!(refused(&["0"], 0), "NUMA domain 0 not found; system has 0 node(s) (0..0)");
}

#[test]
fn earlier_errors_come_first() {
    // A spec that cannot be read is reported before a repeated or unknown id.
    assert_eq!(refused(&["9", "9", "x"], 4), "Invalid NUMA domain id: 'x'");
    // A repeated id is reported before an unknown one.
    assert_eq!(refused(&["9", "9"], 4), "Duplicate NUMA domain id: 9");
}

#[test]
fn specs_are_trimmed_and_may_have_a_plus() {
    assert_eq!(parse_numa_specs(&s(&[" 2 ", "+3"]), 4).unwrap(), vec![Bound(2), Bound(3)]);
    assert_eq!(parse_numa_specs(&s(&[" all\n"]), 1).unwrap(), vec![Bound(0)]);
    assert_eq!(parse_numa_specs(&s(&["all"]), 0).unwrap(), Vec::<MemPlacement>::new());
}

#[test]
fn domains_shown() {
    assert_eq!(fmt_domains(&[]), "default");
    assert_eq!(fmt_domains(&[Def]), "default");
    assert_eq!(fmt_domains(&[Def, Def]), "default");
    assert_eq!(fmt_domains(&[Bound(0), Bound(12)]), "0,12");
    assert_eq!(fmt_domains(&[Def, Bound(3)]), "default,3");
}

#[test]
fn all_cores_without_specs() {
    assert_eq!(parse_cores(&[], &cores(&[4, 2, 9])), cores(&[4, 2, 9]));
    assert_eq!(parse_cores(&[], &[]), cores(&[]));
}

#[test]
fn cores_in_the_order_asked_for() {
    let all = cores(&[0, 1, 2, 3, 4, 5, 6, 7]);
    assert_eq!(parse_cores(&s(&["7", "1-3"]), &all), cores(&[7, 1, 2, 3]));
    assert_eq!(ids_of(&parse_cores(&s(&["5", " 0 "]), &all)), vec![5, 0]);
}

#[test]
fn core_errors_word_for_word() {
    let all = cores(&[5, 0, 2]);
    let refused = |items: &[&str]| try_parse_cores(&s(items), &all).unwrap_err();
    assert_eq!(refused(&["x"]), "Invalid core id: 'x'");
    assert_eq!(refused(&["all"]), "Invalid core id: 'all'");
    assert_eq!(refused(&["-2"]), "Invalid range start in '-2': ''");
    assert_eq!(refused(&["2-"]), "Invalid range end in '2-': ''");
    assert_eq!(refused(&["2-0"]), "Invalid range '2-0': start (2) > end (0)");
    assert_eq!(refused(&["2", "2"]), "Duplicate core id: 2");
    assert_eq!(refused(&["0", "3"]), "Core 3 not found. Available: [0, 2, 5]");
    assert_eq!(refused(&["2"]), "--cores must specify at least 2 cores, got 1");
    // An unknown core is reported before their number is looked at.
    assert_eq!(refused(&["3"]), "Core 3 not found. Available: [0, 2, 5]");
}

#[test]
fn no_core_available() {
    assert_eq!(
        try_parse_cores(&s(&["0", "1"]), &[]).unwrap_err(),
        "Core 0 not found. Available: []"
    );
}

#[test]
fn numbers_that_do_not_fit_are_invalid() {
    assert_eq!(
        refused(&["99999999999999999999999"], 4),
        "Invalid NUMA domain id: '99999999999999999999999'"
    );
    assert_eq!(
        refused(&["18446744073709551615"], 4),
        "NUMA domain 18446744073709551615 not found; system has 4 node(s) (0..3)"
    );
}

#[test]
fn all_is_the_range_of_all() {
    for n in [1, 2, 11] {
        let range = format!("0-{}", n - 1);
        assert_eq!(parse_numa_specs(&s(&["all"]), n), parse_numa_specs(&s(&[&range]), n));
    }
}
