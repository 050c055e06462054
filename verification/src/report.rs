//! What a run reports: the summary on the console, the CSV files, and the
//! matrix on standard output.

use crate::cells;
use crate::cells::{CellRecord, PerAddressRow, Place};
use crate::double;
use crate::double::{Arith, Double, Notation, Op};
use crate::number;
use crate::select::CoreId;
use crate::stats;
use crate::stats::{SampleAgg, Stats};
use crate::style;
use crate::style::Tint;
use crate::sweep::Tally;
use crate::text;
use std::collections::HashMap;
use vstd::prelude::*;

verus! {

// ---------------------------------------------------------------------------
// The best and the worst pair
// ---------------------------------------------------------------------------

/// The latency of a core pair.
#[derive(Clone, Copy, Debug, PartialEq, Eq, Structural)]
pub struct Extreme {
    pub value: Double,
    pub ping: usize,
    pub pong: usize,
}

/// Whether `a` lies beyond `b`: below it where the lowest is looked for, else above it.
pub open spec fn beyond(lowest: bool, a: Double, b: Double) -> bool {
    if lowest {
        a.less(b)
    } else {
        b.less(a)
    }
}

/// The pair of a group, with its mean or median.
pub open spec fn candidate(records: Seq<CellRecord>, group: (usize, Stats), by: SampleAgg) -> Extreme {
    let place = records[group.0 as int].place;
    Extreme { value: by.picked(group.1), ping: place.ping_core, pong: place.pong_core }
}

/// Whether the means or medians of all groups are numbers.
pub open spec fn all_numbers(groups: Seq<(usize, Stats)>, by: SampleAgg) -> bool {
    forall|g: int| 0 <= g < groups.len() ==> !by.picked((#[trigger] groups[g]).1).not_a_number()
}

/// The first pair, by mean or median, beyond which no later pair lies.
pub open spec fn extreme(
    records: Seq<CellRecord>,
    groups: Seq<(usize, Stats)>,
    by: SampleAgg,
    lowest: bool,
) -> Option<Extreme>
    decreases groups.len(),
{
    if groups.len() == 0 {
        None
    } else {
        let c = candidate(records, groups.last(), by);
        match extreme(records, groups.drop_last(), by, lowest) {
            None => Some(c),
            Some(e) => if beyond(lowest, c.value, e.value) {
                Some(c)
            } else {
                Some(e)
            },
        }
    }
}

/// The first pair, by mean or median, beyond which no later pair lies.
pub fn find_extreme(
    records: &[CellRecord],
    groups: &[(usize, Stats)],
    by: SampleAgg,
    lowest: bool,
) -> (r: Option<Extreme>)
    requires
        cells::within(groups@, records@.len()),
    ensures
        r == extreme(records@, groups@, by, lowest),
{
    let mut best: Option<Extreme> = None;
    let mut i: usize = 0;
    while i < groups.len()
        invariant
            i <= groups@.len(),
            cells::within(groups@, records@.len()),
            best == extreme(records@, groups@.take(i as int), by, lowest),
        decreases groups@.len() - i,
    {
        assert(groups@.take(i + 1).drop_last() == groups@.take(i as int));
        let group: (usize, Stats) = groups[i];
        assert(groups@[i as int].0 < records@.len());
        let place: Place = records[group.0].place;
        let c: Extreme = Extreme {
            value: by.collapse(&group.1),
            ping: place.ping_core,
            pong: place.pong_core,
        };
        best = match best {
            None => Some(c),
            Some(e) => {
                let further: bool = if lowest {
                    c.value.lt(e.value)
                } else {
                    e.value.lt(c.value)
                };
                if further {
                    Some(c)
                } else {
                    Some(e)
                }
            },
        };
        i = i + 1;
    }
    assert(groups@.take(i as int) == groups@);
    best
}

/// There is a best pair where there is a group. It is the pair of the group
/// `g`; and where all means or medians are numbers, no group lies beyond it,
/// and it lies beyond every group before `g`: it is the first to attain its value.
pub proof fn law_extreme(
    records: Seq<CellRecord>,
    groups: Seq<(usize, Stats)>,
    by: SampleAgg,
    lowest: bool,
) -> (g: int)
    ensures
        extreme(records, groups, by, lowest) is None <==> groups.len() == 0,
        extreme(records, groups, by, lowest) matches Some(e) ==> {
            &&& 0 <= g < groups.len()
            &&& e == candidate(records, groups[g], by)
            &&& all_numbers(groups, by) ==> {
                &&& !e.value.not_a_number()
                &&& forall|h: int|
                    0 <= h < groups.len() ==> !beyond(
                        lowest,
                        by.picked((#[trigger] groups[h]).1),
                        e.value,
                    )
                &&& forall|h: int|
                    0 <= h < g ==> beyond(lowest, e.value, by.picked((#[trigger] groups[h]).1))
            }
        },
    decreases groups.len(),
{
    if groups.len() == 0 {
        0
    } else {
        let d = groups.drop_last();
        let n = groups.len() - 1;
        let before = law_extreme(records, d, by, lowest);
        let c = candidate(records, groups[n], by);
        let further = d.len() == 0 || beyond(
            lowest,
            c.value,
            extreme(records, d, by, lowest)->0.value,
        );
        let g = if further {
            n
        } else {
            before
        };
        let e = extreme(records, groups, by, lowest)->0;
        if all_numbers(groups, by) {
            assert forall|h: int| 0 <= h < d.len() implies !by.picked(
                (#[trigger] d[h]).1,
            ).not_a_number() by {
                assert(d[h] == groups[h]);
            }
            assert(all_numbers(d, by));
            assert(!by.picked(groups[n].1).not_a_number());
            assert forall|h: int| 0 <= h < groups.len() implies !beyond(
                lowest,
                by.picked((#[trigger] groups[h]).1),
                e.value,
            ) by {
                if h < n {
                    assert(d[h] == groups[h]);
                }
            }
            assert forall|h: int| 0 <= h < g implies beyond(
                lowest,
                e.value,
                by.picked((#[trigger] groups[h]).1),
            ) by {
                assert(d[h] == groups[h]);
                assert(!by.picked(d[h].1).not_a_number());
                if further {
                    assert(!beyond(
                        lowest,
                        by.picked(d[h].1),
                        extreme(records, d, by, lowest)->0.value,
                    ));
                }
            }
        }
        g
    }
}

// ---------------------------------------------------------------------------
// The summary
// ---------------------------------------------------------------------------

/// The line for a best pair, where there is one.
pub open spec fn extreme_line(w: Notation, label: Seq<char>, e: Option<Extreme>) -> Seq<char> {
    match e {
        Some(e) => "      "@ + label + "  latency: "@ + style::painted(
            Tint::WhiteBold,
            w(1, e.value),
        ) + "ns cores: ("@ + number::dec(e.ping as nat) + ","@ + number::dec(e.pong as nat)
            + ")\n"@,
        None => ""@,
    }
}

/// The lines for the best and the worst pair by mean or median.
pub open spec fn extremes_text(
    w: Notation,
    records: Seq<CellRecord>,
    groups: Seq<(usize, Stats)>,
    by: SampleAgg,
) -> Seq<char> {
    extreme_line(w, "Min"@, extreme(records, groups, by, true)) + extreme_line(
        w,
        "Max"@,
        extreme(records, groups, by, false),
    )
}

/// The line for the mean of all samples, where there is a sample.
pub open spec fn overall_line(m: Arith, w: Notation, sum: Double, count: u64) -> Seq<char> {
    if count > 0 {
        "    Overall mean latency: "@ + style::painted(
            Tint::WhiteBold,
            w(1, m(Op::Quotient, seq![sum, m(Op::Count(count), seq![])])),
        ) + "ns\n"@
    } else {
        ""@
    }
}

/// The summary of a run.
pub open spec fn summary_text(
    m: Arith,
    w: Notation,
    sum: Double,
    count: u64,
    records: Seq<CellRecord>,
    groups: Seq<(usize, Stats)>,
) -> Seq<char> {
    "\n    "@ + style::painted(Tint::WhiteDimmed, "Median-based stats"@)
        + " (robust to outliers):\n"@ + extremes_text(w, records, groups, SampleAgg::Median)
        + "    "@ + style::painted(Tint::WhiteDimmed, "Mean-based stats"@)
        + " (sensitive to outliers):\n"@ + extremes_text(w, records, groups, SampleAgg::Mean)
        + overall_line(m, w, sum, count)
}

/// The line for a best pair, where there is one.
fn fmt_extreme<G: Fn(u8, Double) -> String>(g: &G, label: &str, e: Option<Extreme>) -> (r: String)
    requires
        double::writes(*g),
    ensures
        forall|w: Notation| #[trigger] double::spells(w, *g) ==> r@ == extreme_line(w, label@, e),
{
    match e {
        Some(e) => {
            let mut out: String = "      ".to_owned();
            out.append(label);
            out.append("  latency: ");
            let value: String = double::write_double(g, 1, e.value);
            let shown: String = style::paint(Tint::WhiteBold, value.as_str());
            out.append(shown.as_str());
            out.append("ns cores: (");
            number::push_usize(&mut out, e.ping);
            out.append(",");
            number::push_usize(&mut out, e.pong);
            out.append(")\n");
            out
        },
        None => "".to_owned(),
    }
}

/// The lines for the best and the worst pair by mean or median.
fn fmt_extremes<G: Fn(u8, Double) -> String>(
    g: &G,
    records: &[CellRecord],
    groups: &[(usize, Stats)],
    by: SampleAgg,
) -> (r: String)
    requires
        double::writes(*g),
        cells::within(groups@, records@.len()),
    ensures
        forall|w: Notation| #[trigger]
            double::spells(w, *g) ==> r@ == extremes_text(w, records@, groups@, by),
{
    let mut out: String = fmt_extreme(g, "Min", find_extreme(records, groups, by, true));
    let worst: String = fmt_extreme(g, "Max", find_extreme(records, groups, by, false));
    out.append(worst.as_str());
    out
}

/// The line for the mean of all samples, where there is a sample.
fn fmt_overall<F: Fn(Op, &[Double]) -> Double, G: Fn(u8, Double) -> String>(
    f: &F,
    g: &G,
    sum: Double,
    count: u64,
) -> (r: String)
    requires
        double::answers(*f),
        double::writes(*g),
    ensures
        forall|m: Arith, w: Notation|
            #[trigger] double::describes(m, *f) && #[trigger] double::spells(w, *g) ==> r@
                == overall_line(m, w, sum, count),
{
    if count > 0 {
        let n: Double = double::count(f, count);
        let mean: Double = double::apply(f, Op::Quotient, sum, n);
        let mut out: String = "    Overall mean latency: ".to_owned();
        let value: String = double::write_double(g, 1, mean);
        let shown: String = style::paint(Tint::WhiteBold, value.as_str());
        out.append(shown.as_str());
        out.append("ns\n");
        out
    } else {
        "".to_owned()
    }
}

/// The summary of a run.
pub fn fmt_summary<F: Fn(Op, &[Double]) -> Double, G: Fn(u8, Double) -> String>(
    f: &F,
    g: &G,
    tally: &Tally,
    groups: &[(usize, Stats)],
) -> (r: String)
    requires
        double::answers(*f),
        double::writes(*g),
        cells::within(groups@, tally.records@.len()),
    ensures
        forall|m: Arith, w: Notation|
            #[trigger] double::describes(m, *f) && #[trigger] double::spells(w, *g) ==> r@
                == summary_text(m, w, tally.sum, tally.count, tally.records@, groups@),
{
    let records: &[CellRecord] = tally.records.as_slice();
    let mut out: String = "\n    ".to_owned();
    let title: String = style::paint(Tint::WhiteDimmed, "Median-based stats");
    out.append(title.as_str());
    out.append(" (robust to outliers):\n");
    let lines: String = fmt_extremes(g, records, groups, SampleAgg::Median);
    out.append(lines.as_str());
    out.append("    ");
    let title: String = style::paint(Tint::WhiteDimmed, "Mean-based stats");
    out.append(title.as_str());
    out.append(" (sensitive to outliers):\n");
    let lines: String = fmt_extremes(g, records, groups, SampleAgg::Mean);
    out.append(lines.as_str());
    let line: String = fmt_overall(f, g, tally.sum, tally.count);
    out.append(line.as_str());
    out
}

// ---------------------------------------------------------------------------
// CSV files
// ---------------------------------------------------------------------------

/// The five statistics of a row.
pub open spec fn stats_columns(w: Notation, s: Stats) -> Seq<char> {
    w(2, s.mean) + ","@ + w(2, s.median) + ","@ + w(2, s.min) + ","@ + w(2, s.max) + ","@ + w(
        2,
        s.cv_percent,
    )
}

/// The cores of a row, and their nodes.
pub open spec fn core_columns(p: Place) -> Seq<char> {
    number::dec(p.ping_core as nat) + ","@ + number::dec(p.pong_core as nat) + ","@
        + number::dec_int(p.ping_numa as int) + ","@ + number::dec_int(p.pong_numa as int) + ","@
}

/// The row of a cell.
pub open spec fn address_row(w: Notation, row: PerAddressRow) -> Seq<char> {
    core_columns(row.place) + number::dec_int(row.place.mem_numa as int) + ","@ + number::dec(
        row.address as nat,
    ) + ",0x"@ + number::hex(row.vaddr as nat) + ","@ + stats_columns(w, row.stats) + "\n"@
}

/// The row of a group, with its memory domain where that is asked for.
pub open spec fn group_row(
    w: Notation,
    records: Seq<CellRecord>,
    group: (usize, Stats),
    with_domain: bool,
) -> Seq<char> {
    let p = records[group.0 as int].place;
    core_columns(p) + (if with_domain {
        number::dec_int(p.mem_numa as int) + ","@
    } else {
        ""@
    }) + stats_columns(w, group.1) + "\n"@
}

/// The rows of the cells.
pub open spec fn address_rows(w: Notation, rows: Seq<PerAddressRow>) -> Seq<char>
    decreases rows.len(),
{
    if rows.len() == 0 {
        seq![]
    } else {
        address_rows(w, rows.drop_last()) + address_row(w, rows.last())
    }
}

/// The rows of the groups.
pub open spec fn group_rows(
    w: Notation,
    records: Seq<CellRecord>,
    groups: Seq<(usize, Stats)>,
    with_domain: bool,
) -> Seq<char>
    decreases groups.len(),
{
    if groups.len() == 0 {
        seq![]
    } else {
        group_rows(w, records, groups.drop_last(), with_domain) + group_row(
            w,
            records,
            groups.last(),
            with_domain,
        )
    }
}

/// The file with one row per cell.
pub open spec fn per_address_csv(w: Notation, rows: Seq<PerAddressRow>) -> Seq<char> {
    "ping_core,pong_core,ping_numa,pong_numa,mem_numa,address,vaddr,mean_latency,median_latency,min_latency,max_latency,cv_percent\n"@
        + address_rows(w, rows)
}

/// The file with one row per core pair and memory domain.
pub open spec fn per_domain_csv(
    w: Notation,
    records: Seq<CellRecord>,
    groups: Seq<(usize, Stats)>,
) -> Seq<char> {
    "ping_core,pong_core,ping_numa,pong_numa,mem_numa,mean_latency,median_latency,min_latency,max_latency,cv_percent\n"@
        + group_rows(w, records, groups, true)
}

/// The file with one row per core pair.
pub open spec fn per_pair_csv(
    w: Notation,
    records: Seq<CellRecord>,
    groups: Seq<(usize, Stats)>,
) -> Seq<char> {
    "ping_core,pong_core,ping_numa,pong_numa,mean_latency,median_latency,min_latency,max_latency,cv_percent\n"@
        + group_rows(w, records, groups, false)
}

/// The path of a CSV file.
pub open spec fn csv_name(prefix: Seq<char>, bench: Seq<char>, suffix: Seq<char>) -> Seq<char> {
    prefix + "."@ + bench + "."@ + suffix + ".csv"@
}

/// A CSV file: its path and what it holds.
pub struct CsvFile {
    pub path: String,
    pub content: String,
}

/// The paths and the contents of the files.
pub open spec fn file_models(files: Seq<CsvFile>) -> Seq<(Seq<char>, Seq<char>)> {
    files.map_values(|f: CsvFile| (f.path@, f.content@))
}

/// The CSV files of a run: the cells, the domains where there is more than
/// one, the pairs.
pub open spec fn csv_models(
    m: Arith,
    w: Notation,
    prefix: Seq<char>,
    bench: Seq<char>,
    num_domains: usize,
    records: Seq<CellRecord>,
    rows: Seq<PerAddressRow>,
) -> Seq<(Seq<char>, Seq<char>)> {
    seq![(csv_name(prefix, bench, "per_address"@), per_address_csv(w, rows))] + (if num_domains
        > 1 {
        seq![
            (
                csv_name(prefix, bench, "per_domain"@),
                per_domain_csv(w, records, cells::domain_groups(m, records)),
            ),
        ]
    } else {
        seq![]
    }) + seq![
        (
            csv_name(prefix, bench, "per_pair"@),
            per_pair_csv(w, records, cells::pair_groups(m, records)),
        ),
    ]
}

/// Appends the five statistics of a row.
fn push_stats<G: Fn(u8, Double) -> String>(g: &G, out: &mut String, s: &Stats)
    requires
        double::writes(*g),
    ensures
        forall|w: Notation| #[trigger]
            double::spells(w, *g) ==> final(out)@ == old(out)@ + stats_columns(w, *s),
{
    let ghost start = out@;
    let mean: String = double::write_double(g, 2, s.mean);
    let median: String = double::write_double(g, 2, s.median);
    let min: String = double::write_double(g, 2, s.min);
    let max: String = double::write_double(g, 2, s.max);
    let cv_percent: String = double::write_double(g, 2, s.cv_percent);
    out.append(mean.as_str());
    out.append(",");
    out.append(median.as_str());
    out.append(",");
    out.append(min.as_str());
    out.append(",");
    out.append(max.as_str());
    out.append(",");
    out.append(cv_percent.as_str());
    assert(out@ =~= start + (mean@ + ","@ + median@ + ","@ + min@ + ","@ + max@ + ","@
        + cv_percent@));
}

/// Appends the cores of a row, and their nodes.
fn push_cores(out: &mut String, p: &Place)
    ensures
        final(out)@ == old(out)@ + core_columns(*p),
{
    let ghost start = out@;
    number::push_usize(out, p.ping_core);
    out.append(",");
    number::push_usize(out, p.pong_core);
    out.append(",");
    number::push_i32(out, p.ping_numa);
    out.append(",");
    number::push_i32(out, p.pong_numa);
    out.append(",");
    assert(out@ =~= start + core_columns(*p));
}

/// The row of a cell.
fn fmt_address_row<G: Fn(u8, Double) -> String>(g: &G, row: &PerAddressRow) -> (r: String)
    requires
        double::writes(*g),
    ensures
        forall|w: Notation| #[trigger] double::spells(w, *g) ==> r@ == address_row(w, *row),
{
    let mut out: String = String::new();
    push_cores(&mut out, &row.place);
    assert(out@ =~= core_columns(row.place));
    number::push_i32(&mut out, row.place.mem_numa);
    out.append(",");
    number::push_usize(&mut out, row.address);
    out.append(",0x");
    number::push_hex(&mut out, row.vaddr as u64);
    out.append(",");
    push_stats(g, &mut out, &row.stats);
    out.append("\n");
    out
}

/// The row of a group.
fn fmt_group_row<G: Fn(u8, Double) -> String>(
    g: &G,
    records: &[CellRecord],
    group: &(usize, Stats),
    with_domain: bool,
) -> (r: String)
    requires
        double::writes(*g),
        group.0 < records@.len(),
    ensures
        forall|w: Notation| #[trigger]
            double::spells(w, *g) ==> r@ == group_row(w, records@, *group, with_domain),
{
    let p: Place = records[group.0].place;
    let mut out: String = String::new();
    push_cores(&mut out, &p);
    assert(out@ =~= core_columns(p));
    let mut domain: String = "".to_owned();
    if with_domain {
        domain = String::new();
        number::push_i32(&mut domain, p.mem_numa);
        assert(domain@ =~= number::dec_int(p.mem_numa as int));
        domain.append(",");
    }
    out.append(domain.as_str());
    push_stats(g, &mut out, &group.1);
    out.append("\n");
    out
}

/// The file with one row per cell.
pub fn fmt_per_address<G: Fn(u8, Double) -> String>(g: &G, rows: &[PerAddressRow]) -> (r: String)
    requires
        double::writes(*g),
    ensures
        forall|w: Notation| #[trigger] double::spells(w, *g) ==> r@ == per_address_csv(w, rows@),
{
    let mut out: String =
        "ping_core,pong_core,ping_numa,pong_numa,mem_numa,address,vaddr,mean_latency,median_latency,min_latency,max_latency,cv_percent\n".to_owned();
    let ghost start = out@;
    let mut i: usize = 0;
    proof {
        assert forall|w: Notation| #[trigger] double::spells(w, *g) implies out@ == start
            + address_rows(w, rows@.take(0)) by {
            assert(out@ =~= start + address_rows(w, rows@.take(0)));
        }
    }
    while i < rows.len()
        invariant
            i <= rows@.len(),
            double::writes(*g),
            forall|w: Notation| #[trigger]
                double::spells(w, *g) ==> out@ == start + address_rows(w, rows@.take(i as int)),
        decreases rows@.len() - i,
    {
        let row: String = fmt_address_row(g, &rows[i]);
        out.append(row.as_str());
        proof {
            assert(rows@.take(i + 1).drop_last() == rows@.take(i as int));
            assert forall|w: Notation| #[trigger] double::spells(w, *g) implies out@ == start
                + address_rows(w, rows@.take(i + 1)) by {
                assert(out@ =~= start + (address_rows(w, rows@.take(i as int)) + address_row(
                    w,
                    rows@[i as int],
                )));
            }
        }
        i = i + 1;
    }
    assert(rows@.take(i as int) == rows@);
    out
}

/// The rows of the groups, after a header.
fn fmt_groups<G: Fn(u8, Double) -> String>(
    g: &G,
    header: &str,
    records: &[CellRecord],
    groups: &[(usize, Stats)],
    with_domain: bool,
) -> (r: String)
    requires
        double::writes(*g),
        cells::within(groups@, records@.len()),
    ensures
        forall|w: Notation| #[trigger]
            double::spells(w, *g) ==> r@ == header@ + group_rows(
                w,
                records@,
                groups@,
                with_domain,
            ),
{
    let mut out: String = header.to_owned();
    let mut i: usize = 0;
    proof {
        assert forall|w: Notation| #[trigger] double::spells(w, *g) implies out@ == header@
            + group_rows(w, records@, groups@.take(0), with_domain) by {
            assert(out@ =~= header@ + group_rows(w, records@, groups@.take(0), with_domain));
        }
    }
    while i < groups.len()
        invariant
            i <= groups@.len(),
            double::writes(*g),
            cells::within(groups@, records@.len()),
            forall|w: Notation| #[trigger]
                double::spells(w, *g) ==> out@ == header@ + group_rows(
                    w,
                    records@,
                    groups@.take(i as int),
                    with_domain,
                ),
        decreases groups@.len() - i,
    {
        assert(groups@[i as int].0 < records@.len());
        let row: String = fmt_group_row(g, records, &groups[i], with_domain);
        out.append(row.as_str());
        proof {
            assert(groups@.take(i + 1).drop_last() == groups@.take(i as int));
            assert forall|w: Notation| #[trigger] double::spells(w, *g) implies out@ == header@
                + group_rows(w, records@, groups@.take(i + 1), with_domain) by {
                assert(out@ =~= header@ + (group_rows(
                    w,
                    records@,
                    groups@.take(i as int),
                    with_domain,
                ) + group_row(w, records@, groups@[i as int], with_domain)));
            }
        }
        i = i + 1;
    }
    assert(groups@.take(i as int) == groups@);
    out
}

/// The file with one row per core pair and memory domain.
pub fn fmt_per_domain<G: Fn(u8, Double) -> String>(
    g: &G,
    records: &[CellRecord],
    groups: &[(usize, Stats)],
) -> (r: String)
    requires
        double::writes(*g),
        cells::within(groups@, records@.len()),
    ensures
        forall|w: Notation| #[trigger]
            double::spells(w, *g) ==> r@ == per_domain_csv(w, records@, groups@),
{
    fmt_groups(
        g,
        "ping_core,pong_core,ping_numa,pong_numa,mem_numa,mean_latency,median_latency,min_latency,max_latency,cv_percent\n",
        records,
        groups,
        true,
    )
}

/// The file with one row per core pair.
pub fn fmt_per_pair<G: Fn(u8, Double) -> String>(
    g: &G,
    records: &[CellRecord],
    groups: &[(usize, Stats)],
) -> (r: String)
    requires
        double::writes(*g),
        cells::within(groups@, records@.len()),
    ensures
        forall|w: Notation| #[trigger]
            double::spells(w, *g) ==> r@ == per_pair_csv(w, records@, groups@),
{
    fmt_groups(
        g,
        "ping_core,pong_core,ping_numa,pong_numa,mean_latency,median_latency,min_latency,max_latency,cv_percent\n",
        records,
        groups,
        false,
    )
}

/// The path of a CSV file.
pub fn csv_path(prefix: &str, bench: &str, suffix: &str) -> (r: String)
    ensures
        r@ == csv_name(prefix@, bench@, suffix@),
{
    let mut out: String = prefix.to_owned();
    out.append(".");
    out.append(bench);
    out.append(".");
    out.append(suffix);
    out.append(".csv");
    out
}

/// What is said of a CSV file that was created.
pub open spec fn created_text(path: Seq<char>) -> Seq<char> {
    "    Writing CSV: "@ + path + "\n"@
}

/// What is said of a CSV file that could not be created.
pub open spec fn not_created_text(path: Seq<char>, error: Seq<char>) -> Seq<char> {
    "    ERROR: Failed to create "@ + path + ": "@ + error + "\n"@
}

/// What comes of the attempt to create a CSV file: the file, where there is
/// one, and what is said of it.
pub fn create_csv<W>(path: &str, attempt: Result<W, String>) -> (r: (Option<W>, String))
    ensures
        match attempt {
            Ok(file) => r.0 == Some(file) && r.1@ == created_text(path@),
            Err(e) => r.0 is None && r.1@ == not_created_text(path@, e@),
        },
{
    match attempt {
        Ok(file) => {
            let mut out: String = "    Writing CSV: ".to_owned();
            out.append(path);
            out.append("\n");
            (Some(file), out)
        },
        Err(e) => {
            let mut out: String = "    ERROR: Failed to create ".to_owned();
            out.append(path);
            out.append(": ");
            out.append(e.as_str());
            out.append("\n");
            (None, out)
        },
    }
}

/// The CSV files of a run.
pub fn csv_files<F: Fn(Op, &[Double]) -> Double, G: Fn(u8, Double) -> String>(
    f: &F,
    g: &G,
    prefix: &str,
    bench: &str,
    num_domains: usize,
    tally: &Tally,
) -> (r: Vec<CsvFile>)
    requires
        double::answers(*f),
        double::writes(*g),
    ensures
        forall|m: Arith, w: Notation|
            #[trigger] double::describes(m, *f) && #[trigger] double::spells(w, *g) ==> file_models(
                r@,
            ) == csv_models(
                m,
                w,
                prefix@,
                bench@,
                num_domains,
                tally.records@,
                tally.rows@,
            ),
{
    let records: &[CellRecord] = tally.records.as_slice();
    let mut files: Vec<CsvFile> = Vec::new();
    files.push(
        CsvFile {
            path: csv_path(prefix, bench, "per_address"),
            content: fmt_per_address(g, tally.rows.as_slice()),
        },
    );
    if num_domains > 1 {
        let groups: Vec<(usize, Stats)> = cells::group_by_domain(f, records);
        files.push(
            CsvFile {
                path: csv_path(prefix, bench, "per_domain"),
                content: fmt_per_domain(g, records, groups.as_slice()),
            },
        );
    }
    let groups: Vec<(usize, Stats)> = cells::group_by_pair(f, records);
    files.push(
        CsvFile {
            path: csv_path(prefix, bench, "per_pair"),
            content: fmt_per_pair(g, records, groups.as_slice()),
        },
    );
    proof {
        assert forall|m: Arith, w: Notation|
            #[trigger] double::describes(m, *f) && #[trigger] double::spells(w, *g) implies file_models(
        files@) == csv_models(
            m,
            w,
            prefix@,
            bench@,
            num_domains,
            tally.records@,
            tally.rows@,
        ) by {
            assert(file_models(files@) =~= csv_models(
                m,
                w,
                prefix@,
                bench@,
                num_domains,
                tally.records@,
                tally.rows@,
            ));
        }
    }
    files
}

// ---------------------------------------------------------------------------
// The matrix
// ---------------------------------------------------------------------------

/// The last position of a core among the selected ones.
pub open spec fn column(cores: Seq<CoreId>, id: usize) -> Option<int>
    decreases cores.len(),
{
    if cores.len() == 0 {
        None
    } else if cores.last().id == id {
        Some(cores.len() - 1)
    } else {
        column(cores.drop_last(), id)
    }
}

/// A matrix without any latency.
pub open spec fn blank(n: nat) -> Seq<Seq<Double>> {
    Seq::new(n, |i: int| Seq::new(n, |j: int| Double { bits: double::NAN }))
}

/// The matrix with one latency put in.
pub open spec fn with_latency(matrix: Seq<Seq<Double>>, i: int, j: int, v: Double) -> Seq<
    Seq<Double>,
> {
    matrix.update(i, matrix[i].update(j, v))
}

/// The matrix with the mean of a group put in, and its mirror image where the
/// benchmark is symmetric.
pub open spec fn with_group(
    matrix: Seq<Seq<Double>>,
    cores: Seq<CoreId>,
    place: Place,
    mean: Double,
    symmetric: bool,
) -> Seq<Seq<Double>> {
    match (column(cores, place.ping_core), column(cores, place.pong_core)) {
        (Some(i), Some(j)) => if symmetric {
            with_latency(with_latency(matrix, i, j, mean), j, i, mean)
        } else {
            with_latency(matrix, i, j, mean)
        },
        _ => matrix,
    }
}

/// The matrix of the means of the groups; what is not a number where a pair has none.
pub open spec fn matrix_of(
    cores: Seq<CoreId>,
    records: Seq<CellRecord>,
    groups: Seq<(usize, Stats)>,
    symmetric: bool,
) -> Seq<Seq<Double>>
    decreases groups.len(),
{
    if groups.len() == 0 {
        blank(cores.len())
    } else {
        with_group(
            matrix_of(cores, records, groups.drop_last(), symmetric),
            cores,
            records[groups.last().0 as int].place,
            groups.last().1.mean,
            symmetric,
        )
    }
}

/// The ids of the first `n` cores in the header, with a comma after each that
/// is not the id of the last core.
pub open spec fn matrix_ids(cores: Seq<CoreId>, n: int) -> Seq<char>
    decreases n,
{
    if n <= 0 {
        seq![]
    } else {
        matrix_ids(cores, n - 1) + number::dec(cores[n - 1].id as nat) + (if cores[n - 1].id
            != cores.last().id {
            ","@
        } else {
            ""@
        })
    }
}

/// The first `n` latencies of a row; nothing for what is not a number.
pub open spec fn matrix_values(w: Notation, row: Seq<Double>, n: int) -> Seq<char>
    decreases n,
{
    if n <= 0 {
        seq![]
    } else {
        matrix_values(w, row, n - 1) + ","@ + (if row[n - 1].not_a_number() {
            ""@
        } else {
            w(1, row[n - 1])
        })
    }
}

/// The first `n` rows of the matrix.
pub open spec fn matrix_rows(
    w: Notation,
    cores: Seq<CoreId>,
    matrix: Seq<Seq<Double>>,
    n: int,
) -> Seq<char>
    decreases n,
{
    if n <= 0 {
        seq![]
    } else {
        matrix_rows(w, cores, matrix, n - 1) + number::dec(cores[n - 1].id as nat) + matrix_values(
            w,
            matrix[n - 1],
            cores.len() as int,
        ) + "\n"@
    }
}

/// The matrix as CSV, with the ids of the cores as header and labels.
pub open spec fn matrix_text(w: Notation, cores: Seq<CoreId>, matrix: Seq<Seq<Double>>) -> Seq<
    char,
> {
    ","@ + matrix_ids(cores, cores.len() as int) + "\n"@ + matrix_rows(
        w,
        cores,
        matrix,
        cores.len() as int,
    )
}

/// The rows of a matrix, as sequences.
pub open spec fn grid(matrix: Seq<Vec<Double>>) -> Seq<Seq<Double>> {
    matrix.map_values(|row: Vec<Double>| row@)
}

/// Whether a matrix has `n` rows of `n` values.
pub open spec fn square(matrix: Seq<Seq<Double>>, n: nat) -> bool {
    matrix.len() == n && forall|i: int| 0 <= i < n ==> (#[trigger] matrix[i]).len() == n
}

proof fn lemma_column(cores: Seq<CoreId>, id: usize)
    ensures
        column(cores, id) matches Some(i) ==> 0 <= i < cores.len() && cores[i].id == id,
    decreases cores.len(),
{
    if cores.len() > 0 && cores.last().id != id {
        lemma_column(cores.drop_last(), id);
    }
}

/// What the map holds for a core.
spec fn found(m: Map<usize, usize>, id: usize) -> Option<int> {
    if m.contains_key(id) {
        Some(m[id] as int)
    } else {
        None
    }
}

/// The last position of each core among the selected ones.
fn core_columns_map(cores: &[CoreId]) -> (r: HashMap<usize, usize>)
    ensures
        forall|id: usize| #[trigger] found(r@, id) == column(cores@, id),
{
    broadcast use vstd::std_specs::hash::group_hash_axioms;

    let mut map: HashMap<usize, usize> = HashMap::new();
    let mut i: usize = 0;
    while i < cores.len()
        invariant
            i <= cores@.len(),
            forall|id: usize| #[trigger] found(map@, id) == column(cores@.take(i as int), id),
        decreases cores@.len() - i,
    {
        let ghost before = map@;
        map.insert(cores[i].id, i);
        proof {
            assert(cores@.take(i + 1).drop_last() == cores@.take(i as int));
            assert forall|id: usize| #[trigger] found(map@, id) == column(
                cores@.take(i + 1),
                id,
            ) by {
                assert(found(before, id) == column(cores@.take(i as int), id));
            }
        }
        i = i + 1;
    }
    assert(cores@.take(i as int) == cores@);
    map
}

/// A matrix without any latency.
fn new_matrix(n: usize) -> (r: Vec<Vec<Double>>)
    ensures
        grid(r@) == blank(n as nat),
{
    let mut matrix: Vec<Vec<Double>> = Vec::new();
    let mut i: usize = 0;
    while i < n
        invariant
            i <= n,
            matrix@.len() == i,
            forall|k: int| 0 <= k < i ==> (#[trigger] matrix@[k])@ == blank(n as nat)[k],
        decreases n - i,
    {
        let mut row: Vec<Double> = Vec::new();
        let mut j: usize = 0;
        while j < n
            invariant
                j <= n,
                row@ == Seq::new(j as nat, |k: int| Double { bits: double::NAN }),
            decreases n - j,
        {
            row.push(Double { bits: double::NAN });
            j = j + 1;
            assert(row@ =~= Seq::new(j as nat, |k: int| Double { bits: double::NAN }));
        }
        matrix.push(row);
        i = i + 1;
    }
    assert(grid(matrix@) =~= blank(n as nat));
    matrix
}

/// Puts one latency into the matrix.
fn set_latency(matrix: &mut Vec<Vec<Double>>, i: usize, j: usize, v: Double)
    requires
        i < old(matrix)@.len(),
        j < old(matrix)@[i as int]@.len(),
    ensures
        final(matrix)@.len() == old(matrix)@.len(),
        grid(final(matrix)@) == with_latency(grid(old(matrix)@), i as int, j as int, v),
{
    let ghost before = matrix@;
    matrix[i].set(j, v);
    assert(grid(matrix@) =~= with_latency(grid(before), i as int, j as int, v));
}

/// The matrix of the means of the groups.
pub fn latency_matrix(
    cores: &[CoreId],
    records: &[CellRecord],
    groups: &[(usize, Stats)],
    symmetric: bool,
) -> (r: Vec<Vec<Double>>)
    requires
        cells::within(groups@, records@.len()),
    ensures
        grid(r@) == matrix_of(cores@, records@, groups@, symmetric),
        square(grid(r@), cores@.len()),
{
    broadcast use vstd::std_specs::hash::group_hash_axioms;

    let map: HashMap<usize, usize> = core_columns_map(cores);
    let mut matrix: Vec<Vec<Double>> = new_matrix(cores.len());
    let mut k: usize = 0;
    while k < groups.len()
        invariant
            k <= groups@.len(),
            cells::within(groups@, records@.len()),
            forall|id: usize| #[trigger] found(map@, id) == column(cores@, id),
            grid(matrix@) == matrix_of(cores@, records@, groups@.take(k as int), symmetric),
            square(grid(matrix@), cores@.len()),
        decreases groups@.len() - k,
    {
        let group: (usize, Stats) = groups[k];
        assert(groups@[k as int].0 < records@.len());
        let place: Place = records[group.0].place;
        let ghost before = grid(matrix@);
        proof {
            assert(groups@.take(k + 1).drop_last() == groups@.take(k as int));
            assert(found(map@, place.ping_core) == column(cores@, place.ping_core));
            assert(found(map@, place.pong_core) == column(cores@, place.pong_core));
            lemma_column(cores@, place.ping_core);
            lemma_column(cores@, place.pong_core);
        }
        if let Some(i) = map.get(&place.ping_core) {
            if let Some(j) = map.get(&place.pong_core) {
                proof {
                    assert(before[*i as int] == matrix@[*i as int]@);
                    assert(before[*i as int].len() == cores@.len());
                }
                set_latency(&mut matrix, *i, *j, group.1.mean);
                if symmetric {
                    proof {
                        let middle = with_latency(before, *i as int, *j as int, group.1.mean);
                        assert(grid(matrix@) == middle);
                        assert(middle[*j as int] == matrix@[*j as int]@);
                        assert(before[*j as int].len() == cores@.len());
                    }
                    set_latency(&mut matrix, *j, *i, group.1.mean);
                }
            }
        }
        proof {
            let after = with_group(before, cores@, place, group.1.mean, symmetric);
            assert(grid(matrix@) == after);
            assert forall|x: int| 0 <= x < cores@.len() implies (#[trigger] after[x]).len()
                == cores@.len() by {
                assert(before[x].len() == cores@.len());
            }
        }
        k = k + 1;
    }
    assert(groups@.take(k as int) == groups@);
    matrix
}

/// The latencies of a row.
fn fmt_matrix_row<G: Fn(u8, Double) -> String>(g: &G, row: &[Double]) -> (r: String)
    requires
        double::writes(*g),
    ensures
        forall|w: Notation| #[trigger]
            double::spells(w, *g) ==> r@ == matrix_values(w, row@, row@.len() as int),
{
    let mut out: String = String::new();
    let mut j: usize = 0;
    proof {
        assert forall|w: Notation| #[trigger] double::spells(w, *g) implies out@ == matrix_values(
            w,
            row@,
            0,
        ) by {
            assert(out@ =~= matrix_values(w, row@, 0));
        }
    }
    while j < row.len()
        invariant
            j <= row@.len(),
            double::writes(*g),
            forall|w: Notation| #[trigger]
                double::spells(w, *g) ==> out@ == matrix_values(w, row@, j as int),
        decreases row@.len() - j,
    {
        out.append(",");
        let value: String = if row[j].is_nan() {
            "".to_owned()
        } else {
            double::write_double(g, 1, row[j])
        };
        out.append(value.as_str());
        j = j + 1;
    }
    out
}

/// The header of the matrix.
fn fmt_matrix_ids(cores: &[CoreId]) -> (r: String)
    requires
        cores@.len() > 0,
    ensures
        r@ == matrix_ids(cores@, cores@.len() as int),
{
    let last: usize = cores[cores.len() - 1].id;
    let mut out: String = String::new();
    let mut j: usize = 0;
    assert(out@ =~= matrix_ids(cores@, 0));
    while j < cores.len()
        invariant
            j <= cores@.len(),
            cores@.len() > 0,
            last == cores@.last().id,
            out@ == matrix_ids(cores@, j as int),
        decreases cores@.len() - j,
    {
        number::push_usize(&mut out, cores[j].id);
        let comma: String = if cores[j].id != last {
            ",".to_owned()
        } else {
            "".to_owned()
        };
        out.append(comma.as_str());
        j = j + 1;
    }
    out
}

/// The matrix as CSV.
pub fn fmt_matrix<G: Fn(u8, Double) -> String>(
    g: &G,
    cores: &[CoreId],
    matrix: &[Vec<Double>],
) -> (r: String)
    requires
        double::writes(*g),
        cores@.len() > 0,
        square(grid(matrix@), cores@.len()),
    ensures
        forall|w: Notation| #[trigger]
            double::spells(w, *g) ==> r@ == matrix_text(w, cores@, grid(matrix@)),
{
    let ghost rows = grid(matrix@);
    let mut out: String = ",".to_owned();
    let ids: String = fmt_matrix_ids(cores);
    out.append(ids.as_str());
    out.append("\n");
    let ghost start = out@;
    let mut i: usize = 0;
    proof {
        assert forall|w: Notation| #[trigger] double::spells(w, *g) implies out@ == start
            + matrix_rows(w, cores@, rows, 0) by {
            assert(out@ =~= start + matrix_rows(w, cores@, rows, 0));
        }
    }
    while i < cores.len()
        invariant
            i <= cores@.len(),
            double::writes(*g),
            rows == grid(matrix@),
            square(rows, cores@.len()),
            forall|w: Notation| #[trigger]
                double::spells(w, *g) ==> out@ == start + matrix_rows(w, cores@, rows, i as int),
        decreases cores@.len() - i,
    {
        assert(rows[i as int] == matrix@[i as int]@);
        number::push_usize(&mut out, cores[i].id);
        let values: String = fmt_matrix_row(g, matrix[i].as_slice());
        out.append(values.as_str());
        out.append("\n");
        i = i + 1;
        proof {
            assert forall|w: Notation| #[trigger] double::spells(w, *g) implies out@ == start
                + matrix_rows(w, cores@, rows, i as int) by {
                assert(out@ =~= start + matrix_rows(w, cores@, rows, i as int));
            }
        }
    }
    out
}

/// The matrix of a symmetric benchmark is its own mirror image.
pub proof fn law_matrix_symmetric(
    cores: Seq<CoreId>,
    records: Seq<CellRecord>,
    groups: Seq<(usize, Stats)>,
)
    ensures
        square(matrix_of(cores, records, groups, true), cores.len()),
        forall|i: int, j: int|
            0 <= i < cores.len() && 0 <= j < cores.len() ==> matrix_of(
                cores,
                records,
                groups,
                true,
            )[i][j] == matrix_of(cores, records, groups, true)[j][i],
    decreases groups.len(),
{
    if groups.len() > 0 {
        law_matrix_symmetric(cores, records, groups.drop_last());
        let before = matrix_of(cores, records, groups.drop_last(), true);
        let after = matrix_of(cores, records, groups, true);
        let place = records[groups.last().0 as int].place;
        lemma_column(cores, place.ping_core);
        lemma_column(cores, place.pong_core);
        assert forall|x: int| 0 <= x < cores.len() implies (#[trigger] after[x]).len()
            == cores.len() by {
            assert(before[x].len() == cores.len());
        }
        assert forall|i: int, j: int|
            0 <= i < cores.len() && 0 <= j < cores.len() implies after[i][j] == after[j][i] by {
            assert(before[i][j] == before[j][i]);
            assert(before[i].len() == cores.len());
            assert(before[j].len() == cores.len());
        }
    }
}

// ---------------------------------------------------------------------------
// The whole report
// ---------------------------------------------------------------------------

/// What a run reports: the summary for standard error, and where CSV output is
/// requested the files and the matrix for standard output.
pub struct Report {
    pub summary: String,
    pub files: Vec<CsvFile>,
    pub matrix: String,
}

/// Reports a run.
pub fn finish<F: Fn(Op, &[Double]) -> Double, G: Fn(u8, Double) -> String>(
    f: &F,
    g: &G,
    cores: &[CoreId],
    symmetric: bool,
    csv: bool,
    prefix: &str,
    bench: &str,
    num_domains: usize,
    tally: &Tally,
) -> (r: Report)
    requires
        double::answers(*f),
        double::writes(*g),
        cores@.len() >= 2,
    ensures
        forall|m: Arith, w: Notation|
            #[trigger] double::describes(m, *f) && #[trigger] double::spells(w, *g) ==> {
                &&& r.summary@ == summary_text(
                    m,
                    w,
                    tally.sum,
                    tally.count,
                    tally.records@,
                    cells::pair_groups(m, tally.records@),
                )
                &&& csv ==> file_models(r.files@) == csv_models(
                    m,
                    w,
                    prefix@,
                    bench@,
                    num_domains,
                    tally.records@,
                    tally.rows@,
                )
                &&& csv ==> r.matrix@ == matrix_text(
                    w,
                    cores@,
                    matrix_of(
                        cores@,
                        tally.records@,
                        cells::pair_groups(m, tally.records@),
                        symmetric,
                    ),
                )
            },
        !csv ==> r.files@.len() == 0 && r.matrix@.len() == 0,
{
    let records: &[CellRecord] = tally.records.as_slice();
    let groups: Vec<(usize, Stats)> = cells::group_by_pair(f, records);
    let summary: String = fmt_summary(f, g, tally, groups.as_slice());
    if csv {
        let files: Vec<CsvFile> = csv_files(f, g, prefix, bench, num_domains, tally);
        let latencies: Vec<Vec<Double>> = latency_matrix(
            cores,
            records,
            groups.as_slice(),
            symmetric,
        );
        let matrix: String = fmt_matrix(g, cores, latencies.as_slice());
        Report { summary, files, matrix }
    } else {
        Report { summary, files: Vec::new(), matrix: String::new() }
    }
}

// ---------------------------------------------------------------------------
// Laws of the report
// ---------------------------------------------------------------------------

/// What the summary shows, where all means and medians are numbers: after the
/// title of the medians the least and the greatest median, after the title of
/// the means the least and the greatest mean, each with the cores of the first
/// pair that has it; and at the end the sum of all samples divided by their
/// number, where there is a sample. The pairs are those of the four groups that
/// the law gives: of the least and the greatest median, and of the least and
/// the greatest mean.
pub proof fn law_summary(
    m: Arith,
    w: Notation,
    sum: Double,
    count: u64,
    records: Seq<CellRecord>,
    groups: Seq<(usize, Stats)>,
) -> (r: (int, int, int, int))
    requires
        groups.len() > 0,
        forall|g: int|
            0 <= g < groups.len() ==> !(#[trigger] groups[g]).1.mean.not_a_number()
                && !groups[g].1.median.not_a_number(),
    ensures
        0 <= r.0 < groups.len() && 0 <= r.1 < groups.len(),
        0 <= r.2 < groups.len() && 0 <= r.3 < groups.len(),
        forall|g: int|
            0 <= g < groups.len() ==> {
                &&& !(#[trigger] groups[g]).1.median.less(groups[r.0].1.median)
                &&& !groups[r.1].1.median.less(groups[g].1.median)
                &&& !groups[g].1.mean.less(groups[r.2].1.mean)
                &&& !groups[r.3].1.mean.less(groups[g].1.mean)
            },
        forall|g: int|
            0 <= g < r.0 ==> groups[r.0].1.median.less((#[trigger] groups[g]).1.median),
        forall|g: int|
            0 <= g < r.1 ==> (#[trigger] groups[g]).1.median.less(groups[r.1].1.median),
        forall|g: int| 0 <= g < r.2 ==> groups[r.2].1.mean.less((#[trigger] groups[g]).1.mean),
        forall|g: int| 0 <= g < r.3 ==> (#[trigger] groups[g]).1.mean.less(groups[r.3].1.mean),
        summary_text(m, w, sum, count, records, groups)
            == "\n    \u{1b}[2;37mMedian-based stats\u{1b}[0m (robust to outliers):\n"@
            + ("      Min  latency: "@ + style::painted(
            Tint::WhiteBold,
            w(1, groups[r.0].1.median),
        ) + "ns cores: ("@ + number::dec(records[groups[r.0].0 as int].place.ping_core as nat)
            + ","@ + number::dec(records[groups[r.0].0 as int].place.pong_core as nat) + ")\n"@)
            + ("      Max  latency: "@ + style::painted(
            Tint::WhiteBold,
            w(1, groups[r.1].1.median),
        ) + "ns cores: ("@ + number::dec(records[groups[r.1].0 as int].place.ping_core as nat)
            + ","@ + number::dec(records[groups[r.1].0 as int].place.pong_core as nat) + ")\n"@)
            + "    \u{1b}[2;37mMean-based stats\u{1b}[0m (sensitive to outliers):\n"@
            + ("      Min  latency: "@ + style::painted(
            Tint::WhiteBold,
            w(1, groups[r.2].1.mean),
        ) + "ns cores: ("@ + number::dec(records[groups[r.2].0 as int].place.ping_core as nat)
            + ","@ + number::dec(records[groups[r.2].0 as int].place.pong_core as nat) + ")\n"@)
            + ("      Max  latency: "@ + style::painted(
            Tint::WhiteBold,
            w(1, groups[r.3].1.mean),
        ) + "ns cores: ("@ + number::dec(records[groups[r.3].0 as int].place.ping_core as nat)
            + ","@ + number::dec(records[groups[r.3].0 as int].place.pong_core as nat) + ")\n"@)
            + (if count == 0 {
            ""@
        } else {
            "    Overall mean latency: "@ + style::painted(
                Tint::WhiteBold,
                w(1, m(Op::Quotient, seq![sum, m(Op::Count(count), seq![])])),
            ) + "ns\n"@
        }),
{
    let a = law_extreme(records, groups, SampleAgg::Median, true);
    let b = law_extreme(records, groups, SampleAgg::Median, false);
    let c = law_extreme(records, groups, SampleAgg::Mean, true);
    let d = law_extreme(records, groups, SampleAgg::Mean, false);
    assert(all_numbers(groups, SampleAgg::Median));
    assert(all_numbers(groups, SampleAgg::Mean));
    assert forall|g: int| 0 <= g < groups.len() implies {
        &&& !(#[trigger] groups[g]).1.median.less(groups[a].1.median)
        &&& !groups[b].1.median.less(groups[g].1.median)
        &&& !groups[g].1.mean.less(groups[c].1.mean)
        &&& !groups[d].1.mean.less(groups[g].1.mean)
    } by {
        assert(!beyond(true, SampleAgg::Median.picked(groups[g].1), groups[a].1.median));
        assert(!beyond(false, SampleAgg::Median.picked(groups[g].1), groups[b].1.median));
        assert(!beyond(true, SampleAgg::Mean.picked(groups[g].1), groups[c].1.mean));
        assert(!beyond(false, SampleAgg::Mean.picked(groups[g].1), groups[d].1.mean));
    }
    lemma_extreme_line(w, "Min"@, extreme(records, groups, SampleAgg::Median, true)->0);
    lemma_extreme_line(w, "Max"@, extreme(records, groups, SampleAgg::Median, false)->0);
    lemma_extreme_line(w, "Min"@, extreme(records, groups, SampleAgg::Mean, true)->0);
    lemma_extreme_line(w, "Max"@, extreme(records, groups, SampleAgg::Mean, false)->0);
    lemma_titles();
    lemma_summary_parts(m, w, sum, count, records, groups);
    (a, b, c, d)
}

/// The titles of the summary, each as one text.
proof fn lemma_titles()
    ensures
        "\n    "@ + style::painted(Tint::WhiteDimmed, "Median-based stats"@)
            + " (robust to outliers):\n"@
            == "\n    \u{1b}[2;37mMedian-based stats\u{1b}[0m (robust to outliers):\n"@,
        "    "@ + style::painted(Tint::WhiteDimmed, "Mean-based stats"@)
            + " (sensitive to outliers):\n"@
            == "    \u{1b}[2;37mMean-based stats\u{1b}[0m (sensitive to outliers):\n"@,
        "      "@ + "Min"@ + "  latency: "@ == "      Min  latency: "@,
        "      "@ + "Max"@ + "  latency: "@ == "      Max  latency: "@,
{
    reveal_strlit("\n    ");
    reveal_strlit("    ");
    reveal_strlit("\u{1b}[2;37m");
    reveal_strlit("\u{1b}[0m");
    reveal_strlit("Median-based stats");
    reveal_strlit("Mean-based stats");
    reveal_strlit(" (robust to outliers):\n");
    reveal_strlit(" (sensitive to outliers):\n");
    reveal_strlit("\n    \u{1b}[2;37mMedian-based stats\u{1b}[0m (robust to outliers):\n");
    reveal_strlit("    \u{1b}[2;37mMean-based stats\u{1b}[0m (sensitive to outliers):\n");
    reveal_strlit("      ");
    reveal_strlit("Min");
    reveal_strlit("Max");
    reveal_strlit("  latency: ");
    reveal_strlit("      Min  latency: ");
    reveal_strlit("      Max  latency: ");
    assert("\n    "@ + style::painted(Tint::WhiteDimmed, "Median-based stats"@)
        + " (robust to outliers):\n"@
        =~= "\n    \u{1b}[2;37mMedian-based stats\u{1b}[0m (robust to outliers):\n"@);
    assert("    "@ + style::painted(Tint::WhiteDimmed, "Mean-based stats"@)
        + " (sensitive to outliers):\n"@
        =~= "    \u{1b}[2;37mMean-based stats\u{1b}[0m (sensitive to outliers):\n"@);
    assert("      "@ + "Min"@ + "  latency: "@ =~= "      Min  latency: "@);
    assert("      "@ + "Max"@ + "  latency: "@ =~= "      Max  latency: "@);
}

proof fn lemma_extreme_line(w: Notation, label: Seq<char>, e: Extreme)
    ensures
        extreme_line(w, label, Some(e)) == ("      "@ + label + "  latency: "@) + style::painted(
            Tint::WhiteBold,
            w(1, e.value),
        ) + "ns cores: ("@ + number::dec(e.ping as nat) + ","@ + number::dec(e.pong as nat)
            + ")\n"@,
{
}

proof fn lemma_summary_parts(
    m: Arith,
    w: Notation,
    sum: Double,
    count: u64,
    records: Seq<CellRecord>,
    groups: Seq<(usize, Stats)>,
)
    ensures
        summary_text(m, w, sum, count, records, groups) == ("\n    "@ + style::painted(
            Tint::WhiteDimmed,
            "Median-based stats"@,
        ) + " (robust to outliers):\n"@) + extreme_line(
            w,
            "Min"@,
            extreme(records, groups, SampleAgg::Median, true),
        ) + extreme_line(w, "Max"@, extreme(records, groups, SampleAgg::Median, false)) + ("    "@
            + style::painted(Tint::WhiteDimmed, "Mean-based stats"@)
            + " (sensitive to outliers):\n"@) + extreme_line(
            w,
            "Min"@,
            extreme(records, groups, SampleAgg::Mean, true),
        ) + extreme_line(w, "Max"@, extreme(records, groups, SampleAgg::Mean, false))
            + overall_line(m, w, sum, count),
{
    let head = "\n    "@ + style::painted(Tint::WhiteDimmed, "Median-based stats"@)
        + " (robust to outliers):\n"@;
    let a = extreme_line(w, "Min"@, extreme(records, groups, SampleAgg::Median, true));
    let b = extreme_line(w, "Max"@, extreme(records, groups, SampleAgg::Median, false));
    let title = style::painted(Tint::WhiteDimmed, "Mean-based stats"@);
    let c = extreme_line(w, "Min"@, extreme(records, groups, SampleAgg::Mean, true));
    let d = extreme_line(w, "Max"@, extreme(records, groups, SampleAgg::Mean, false));
    let end = overall_line(m, w, sum, count);
    assert(head + (a + b) + "    "@ + title + " (sensitive to outliers):\n"@ + (c + d) + end
        =~= head + a + b + ("    "@ + title + " (sensitive to outliers):\n"@) + c + d + end);
}

/// Whether a group is that of an ordered core pair.
pub open spec fn has_pair(
    records: Seq<CellRecord>,
    group: (usize, Stats),
    ping: usize,
    pong: usize,
) -> bool {
    records[group.0 as int].place.ping_core == ping && records[group.0 as int].place.pong_core
        == pong
}

/// Whether no core is selected twice.
pub open spec fn distinct(cores: Seq<CoreId>) -> bool {
    forall|i: int, j: int|
        0 <= i < j < cores.len() ==> (#[trigger] cores[i]).id != (#[trigger] cores[j]).id
}

/// The column of a core that is selected once is its position; a core that is
/// not selected has none.
pub proof fn law_column(cores: Seq<CoreId>, id: usize)
    requires
        distinct(cores),
    ensures
        forall|i: int|
            0 <= i < cores.len() ==> ((#[trigger] cores[i]).id == id <==> column(cores, id)
                == Some(i)),
        column(cores, id) matches Some(i) ==> 0 <= i < cores.len(),
    decreases cores.len(),
{
    if cores.len() > 0 {
        let d = cores.drop_last();
        assert forall|i: int, j: int| 0 <= i < j < d.len() implies (#[trigger] d[i]).id != (
        #[trigger] d[j]).id by {
            assert(d[i] == cores[i] && d[j] == cores[j]);
        }
        law_column(d, id);
        let last = cores.len() - 1;
        assert forall|i: int| 0 <= i < cores.len() implies ((#[trigger] cores[i]).id == id
            <==> column(cores, id) == Some(i)) by {
            if i < last {
                assert(d[i] == cores[i]);
                assert(cores[i].id != cores[last].id);
            }
        }
    }
}

/// The column of a core is its last position among the selected ones.
pub proof fn law_last_column(cores: Seq<CoreId>, i: int)
    requires
        0 <= i < cores.len(),
        forall|j: int| i < j < cores.len() ==> (#[trigger] cores[j]).id != cores[i].id,
    ensures
        column(cores, cores[i].id) == Some(i),
    decreases cores.len(),
{
    if i < cores.len() - 1 {
        let d = cores.drop_last();
        assert(cores[cores.len() - 1].id != cores[i].id);
        assert forall|j: int| i < j < d.len() implies (#[trigger] d[j]).id != d[i].id by {
            assert(d[j] == cores[j]);
        }
        law_last_column(d, i);
    }
}

/// An entry of the matrix, in the row of a ping core and the column of a pong
/// core, is the mean of the last group of that ordered pair; in a symmetric
/// benchmark, of the last group of the pair in either order. Where there is no
/// such group, the entry is not a number.
pub proof fn law_matrix_entry(
    cores: Seq<CoreId>,
    records: Seq<CellRecord>,
    groups: Seq<(usize, Stats)>,
    symmetric: bool,
    i: int,
    j: int,
    g: int,
)
    requires
        distinct(cores),
        0 <= i < cores.len(),
        0 <= j < cores.len(),
    ensures
        square(matrix_of(cores, records, groups, symmetric), cores.len()),
        0 <= g < groups.len() && (has_pair(records, groups[g], cores[i].id, cores[j].id) || (
        symmetric && has_pair(records, groups[g], cores[j].id, cores[i].id))) && (forall|h: int|
            g < h < groups.len() ==> !has_pair(
                records,
                #[trigger] groups[h],
                cores[i].id,
                cores[j].id,
            ) && !(symmetric && has_pair(records, groups[h], cores[j].id, cores[i].id)))
            ==> matrix_of(cores, records, groups, symmetric)[i][j] == groups[g].1.mean,
        (forall|h: int|
            0 <= h < groups.len() ==> !has_pair(
                records,
                #[trigger] groups[h],
                cores[i].id,
                cores[j].id,
            ) && !(symmetric && has_pair(records, groups[h], cores[j].id, cores[i].id)))
            ==> matrix_of(cores, records, groups, symmetric)[i][j].not_a_number(),
    decreases groups.len(),
{
    let n = cores.len();
    let after = matrix_of(cores, records, groups, symmetric);
    if groups.len() == 0 {
        assert(square(blank(n), n));
        assert(blank(n)[i][j] == Double { bits: double::NAN });
        assert((Double { bits: double::NAN }).not_a_number());
    } else {
        let d = groups.drop_last();
        let last = groups.len() - 1;
        law_matrix_entry(cores, records, d, symmetric, i, j, g);
        let before = matrix_of(cores, records, d, symmetric);
        let place = records[groups[last].0 as int].place;
        law_column(cores, place.ping_core);
        law_column(cores, place.pong_core);
        assert forall|x: int| 0 <= x < n implies (#[trigger] after[x]).len() == n by {
            assert(before[x].len() == n);
        }
        assert(before[i].len() == n && before[j].len() == n);
        let hit = has_pair(records, groups[last], cores[i].id, cores[j].id) || (symmetric
            && has_pair(records, groups[last], cores[j].id, cores[i].id));
        assert(hit ==> after[i][j] == groups[last].1.mean);
        assert(!hit ==> after[i][j] == before[i][j]);
        assert(forall|h: int| 0 <= h < d.len() ==> #[trigger] d[h] == groups[h]);
    }
}

/// Where no two groups are of the same ordered pair and the benchmark is not
/// symmetric, each group has its mean in the row of its ping core and the
/// column of its pong core; an entry is blank only where no group has that
/// ordered pair.
pub proof fn law_matrix_of_pairs(
    cores: Seq<CoreId>,
    records: Seq<CellRecord>,
    groups: Seq<(usize, Stats)>,
    i: int,
    j: int,
)
    requires
        distinct(cores),
        0 <= i < cores.len(),
        0 <= j < cores.len(),
        forall|g: int, h: int|
            0 <= g < h < groups.len() ==> !has_pair(
                records,
                #[trigger] groups[g],
                records[(#[trigger] groups[h]).0 as int].place.ping_core,
                records[groups[h].0 as int].place.pong_core,
            ),
    ensures
        forall|g: int|
            0 <= g < groups.len() && has_pair(
                records,
                #[trigger] groups[g],
                cores[i].id,
                cores[j].id,
            ) ==> matrix_of(cores, records, groups, false)[i][j] == groups[g].1.mean,
        matrix_of(cores, records, groups, false)[i][j].not_a_number() ==> forall|g: int|
            0 <= g < groups.len() && has_pair(
                records,
                #[trigger] groups[g],
                cores[i].id,
                cores[j].id,
            ) ==> groups[g].1.mean.not_a_number(),
        (forall|g: int|
            0 <= g < groups.len() ==> !has_pair(
                records,
                #[trigger] groups[g],
                cores[i].id,
                cores[j].id,
            )) ==> matrix_of(cores, records, groups, false)[i][j].not_a_number(),
{
    law_matrix_entry(cores, records, groups, false, i, j, 0);
    assert forall|g: int|
        0 <= g < groups.len() && has_pair(
            records,
            #[trigger] groups[g],
            cores[i].id,
            cores[j].id,
        ) implies matrix_of(cores, records, groups, false)[i][j] == groups[g].1.mean by {
        law_matrix_entry(cores, records, groups, false, i, j, g);
    }
}

/// Where no two groups are of the same pair in either order and the benchmark
/// is symmetric, each group has its mean in the row of its ping core and the
/// column of its pong core, and in the row of its pong core and the column of
/// its ping core.
pub proof fn law_matrix_of_symmetric_pairs(
    cores: Seq<CoreId>,
    records: Seq<CellRecord>,
    groups: Seq<(usize, Stats)>,
    i: int,
    j: int,
    g: int,
)
    requires
        distinct(cores),
        0 <= i < cores.len(),
        0 <= j < cores.len(),
        0 <= g < groups.len(),
        has_pair(records, groups[g], cores[i].id, cores[j].id),
        forall|h: int|
            0 <= h < groups.len() && h != g ==> !has_pair(
                records,
                #[trigger] groups[h],
                cores[i].id,
                cores[j].id,
            ) && !has_pair(records, groups[h], cores[j].id, cores[i].id),
    ensures
        matrix_of(cores, records, groups, true)[i][j] == groups[g].1.mean,
        matrix_of(cores, records, groups, true)[j][i] == groups[g].1.mean,
{
    law_matrix_entry(cores, records, groups, true, i, j, g);
    law_matrix_entry(cores, records, groups, true, j, i, g);
}

/// Whether no double is written with a comma or the end of a line in it.
pub open spec fn plain(w: Notation) -> bool {
    forall|decimals: u8, x: Double|
        !(#[trigger] w(decimals, x)).contains(',') && !w(decimals, x).contains('\n')
}

proof fn lemma_no_comma(s: Seq<char>)
    requires
        !s.contains(','),
    ensures
        text::pieces(s, ',') == seq![s],
{
    assert forall|k: int| 0 <= k < s.len() implies s[k] != ',' by {
        assert(s.contains(s[k]));
    }
    text::lemma_position_is(s, ',', s.len() as int);
}

/// A column behind columns is one column more.
proof fn lemma_column_added(s: Seq<char>, value: Seq<char>)
    requires
        !value.contains(','),
    ensures
        text::pieces(s + ","@ + value, ',') == text::pieces(s, ',').push(value),
{
    reveal_strlit(",");
    assert(","@ =~= seq![',']);
    text::law_pieces_of_both(s, value, ',');
    lemma_no_comma(value);
    assert(text::pieces(s, ',') + seq![value] =~= text::pieces(s, ',').push(value));
}

proof fn lemma_dec_plain(n: nat)
    ensures
        !number::dec(n).contains(','),
        !number::dec(n).contains('\n'),
{
    number::lemma_dec_digits(n);
    let d = number::dec(n);
    assert forall|k: int| 0 <= k < d.len() implies d[k] != ',' && d[k] != '\n' by {
        assert(number::is_digit(d[k]));
    }
}

proof fn lemma_no_end(a: Seq<char>, b: Seq<char>, c: char)
    requires
        !a.contains(c),
        !b.contains(c),
    ensures
        !(a + b).contains(c),
{
    if (a + b).contains(c) {
        let k = choose|k: int| 0 <= k < (a + b).len() && (a + b)[k] == c;
        if k < a.len() {
            assert(a[k] == c);
        } else {
            assert(b[k - a.len()] == c);
        }
    }
}

/// A value in the matrix as it is written: nothing where it is not a number.
pub open spec fn entry_text(w: Notation, x: Double) -> Seq<char> {
    if x.not_a_number() {
        Seq::empty()
    } else {
        w(1, x)
    }
}

proof fn lemma_matrix_values(w: Notation, label: Seq<char>, row: Seq<Double>, n: int)
    requires
        plain(w),
        0 <= n <= row.len(),
        !label.contains(',') && !label.contains('\n'),
    ensures
        text::pieces(label + matrix_values(w, row, n), ',') == seq![label] + Seq::new(
            n as nat,
            |j: int| entry_text(w, row[j]),
        ),
        !(label + matrix_values(w, row, n)).contains('\n'),
    decreases n,
{
    reveal_strlit("");
    let values = |j: int| entry_text(w, row[j]);
    if n == 0 {
        lemma_no_comma(label);
        assert(label + matrix_values(w, row, n) =~= label);
        assert(seq![label] + Seq::new(0, values) =~= seq![label]);
    } else {
        lemma_matrix_values(w, label, row, n - 1);
        let before = label + matrix_values(w, row, n - 1);
        let value = entry_text(w, row[n - 1]);
        assert(!value.contains(',') && !value.contains('\n'));
        assert(""@ =~= Seq::<char>::empty());
        lemma_column_added(before, value);
        assert(label + matrix_values(w, row, n) =~= before + ","@ + value);
        reveal_strlit(",");
        assert(!","@.contains('\n'));
        lemma_no_end(before, ","@, '\n');
        lemma_no_end(before + ","@, value, '\n');
        assert(Seq::new((n - 1) as nat, |j: int| entry_text(w, row[j])) =~= Seq::new(
            (n - 1) as nat,
            values,
        ));
        assert(seq![label] + Seq::new(n as nat, values) =~= (seq![label] + Seq::new(
            (n - 1) as nat,
            values,
        )).push(value));
    }
    assert(Seq::new(n as nat, |j: int| entry_text(w, row[j])) =~= Seq::new(n as nat, values));
}

proof fn lemma_matrix_ids(cores: Seq<CoreId>, n: int)
    requires
        distinct(cores),
        0 < n <= cores.len(),
    ensures
        n < cores.len() ==> matrix_ids(cores, n).len() > 0 && matrix_ids(cores, n).last() == ','
            && text::pieces(","@ + matrix_ids(cores, n).drop_last(), ',') == seq![
            Seq::<char>::empty(),
        ] + Seq::new(n as nat, |j: int| number::dec(cores[j].id as nat)),
        n == cores.len() ==> text::pieces(","@ + matrix_ids(cores, n), ',') == seq![
            Seq::<char>::empty(),
        ] + Seq::new(n as nat, |j: int| number::dec(cores[j].id as nat)),
        !matrix_ids(cores, n).contains('\n'),
    decreases n,
{
    reveal_strlit("");
    reveal_strlit(",");
    let ids = |j: int| number::dec(cores[j].id as nat);
    let none = Seq::<char>::empty();
    let id = number::dec(cores[n - 1].id as nat);
    let comma = if cores[n - 1].id != cores.last().id {
        ","@
    } else {
        ""@
    };
    assert(n < cores.len() ==> cores[n - 1].id != cores[cores.len() - 1].id);
    assert(comma == if n < cores.len() {
        ","@
    } else {
        ""@
    });
    let all = matrix_ids(cores, n);
    let ended = if n < cores.len() {
        all.drop_last()
    } else {
        all
    };
    lemma_dec_plain(cores[n - 1].id as nat);
    let started = if n == 1 {
        none
    } else {
        lemma_matrix_ids(cores, n - 1);
        ","@ + matrix_ids(cores, n - 1).drop_last()
    };
    let before = matrix_ids(cores, n - 1);
    assert(all =~= before + id + comma);
    assert(!comma.contains('\n'));
    assert(!before.contains('\n'));
    lemma_no_end(before, id, '\n');
    lemma_no_end(before + id, comma, '\n');
    if n == 1 {
        assert(before =~= none);
        lemma_no_comma(none);
    } else {
        assert(before =~= before.drop_last().push(','));
    }
    assert(ended =~= before + id);
    assert(","@ + ended =~= started + ","@ + id);
    lemma_column_added(started, id);
    assert(Seq::new((n - 1) as nat, |j: int| number::dec(cores[j].id as nat)) =~= Seq::new(
        (n - 1) as nat,
        ids,
    ));
    assert(Seq::new(n as nat, |j: int| number::dec(cores[j].id as nat)) =~= Seq::new(
        n as nat,
        ids,
    ));
    if n == 1 {
        assert(seq![none] + Seq::new(n as nat, ids) =~= seq![none].push(id));
    } else {
        assert(seq![none] + Seq::new(n as nat, ids) =~= (seq![none] + Seq::new(
            (n - 1) as nat,
            ids,
        )).push(id));
    }
}

/// The matrix can be read back, where no core is selected twice: the first line
/// has an empty column and then the ids of the cores; behind it there is one
/// line for each core, with its id and then the values of its row, each in the
/// column of its core and empty where it is not a number.
pub proof fn law_matrix_reads_back(
    w: Notation,
    cores: Seq<CoreId>,
    matrix: Seq<Seq<Double>>,
    i: int,
    j: int,
)
    requires
        plain(w),
        distinct(cores),
        square(matrix, cores.len()),
        0 <= i < cores.len(),
        0 <= j < cores.len(),
    ensures
        ({
            let lines = text::pieces(matrix_text(w, cores, matrix), '\n');
            let top = text::pieces(lines[0], ',');
            let row = text::pieces(lines[i + 1], ',');
            &&& lines.len() == cores.len() + 2
            &&& lines.last().len() == 0
            &&& top.len() == cores.len() + 1
            &&& top[0].len() == 0
            &&& top[j + 1] == number::dec(cores[j].id as nat)
            &&& row.len() == cores.len() + 1
            &&& row[0] == number::dec(cores[i].id as nat)
            &&& matrix[i][j].not_a_number() ==> row[j + 1].len() == 0
            &&& !matrix[i][j].not_a_number() ==> row[j + 1] == w(1, matrix[i][j])
        }),
{
    let n = cores.len() as int;
    let ids = ","@ + matrix_ids(cores, n);
    lemma_matrix_ids(cores, n);
    reveal_strlit(",");
    reveal_strlit("\n");
    assert(!","@.contains('\n'));
    lemma_no_end(","@, matrix_ids(cores, n), '\n');
    lemma_matrix_lines(w, cores, matrix, ids, n);
    lemma_dec_plain(cores[i].id as nat);
    lemma_matrix_values(w, number::dec(cores[i].id as nat), matrix[i], n);
    let lines = text::pieces(matrix_text(w, cores, matrix), '\n');
    assert(matrix_text(w, cores, matrix) =~= ids + "\n"@ + matrix_rows(w, cores, matrix, n));
    assert(lines[0] == ids);
    assert(lines[i + 1] == matrix_line(w, cores, matrix, i));
}

/// A line of the matrix, without its end.
spec fn matrix_line(w: Notation, cores: Seq<CoreId>, matrix: Seq<Seq<Double>>, i: int) -> Seq<
    char,
> {
    number::dec(cores[i].id as nat) + matrix_values(w, matrix[i], cores.len() as int)
}

proof fn lemma_matrix_lines(
    w: Notation,
    cores: Seq<CoreId>,
    matrix: Seq<Seq<Double>>,
    top: Seq<char>,
    n: int,
)
    requires
        plain(w),
        square(matrix, cores.len()),
        0 <= n <= cores.len(),
        !top.contains('\n'),
    ensures
        text::ends_line(top + "\n"@ + matrix_rows(w, cores, matrix, n)),
        text::pieces(top + "\n"@ + matrix_rows(w, cores, matrix, n), '\n') == (seq![top]
            + Seq::new(n as nat, |i: int| matrix_line(w, cores, matrix, i))).push(
            Seq::<char>::empty(),
        ),
    decreases n,
{
    reveal_strlit("\n");
    assert("\n"@ =~= seq!['\n']);
    let none = Seq::<char>::empty();
    let line = |i: int| matrix_line(w, cores, matrix, i);
    if n == 0 {
        text::lemma_line_added(none, top);
        text::lemma_position_is(none, '\n', 0);
        assert(text::pieces(none, '\n') == seq![none]);
        assert(seq![none].drop_last() =~= Seq::<Seq<char>>::empty());
        assert(top + "\n"@ + matrix_rows(w, cores, matrix, 0) =~= none + top + seq!['\n']);
        assert((seq![top] + Seq::new(0, line)).push(none) =~= Seq::<Seq<char>>::empty().push(
            top,
        ).push(none));
    } else {
        lemma_matrix_lines(w, cores, matrix, top, n - 1);
        let before = top + "\n"@ + matrix_rows(w, cores, matrix, n - 1);
        let next = matrix_line(w, cores, matrix, n - 1);
        assert(matrix[n - 1].len() == cores.len());
        lemma_dec_plain(cores[n - 1].id as nat);
        lemma_matrix_values(
            w,
            number::dec(cores[n - 1].id as nat),
            matrix[n - 1],
            cores.len() as int,
        );
        text::lemma_line_added(before, next);
        assert(top + "\n"@ + matrix_rows(w, cores, matrix, n) =~= before + next + seq!['\n']);
        assert(Seq::new((n - 1) as nat, |i: int| matrix_line(w, cores, matrix, i)) =~= Seq::new(
            (n - 1) as nat,
            line,
        ));
        let lines = seq![top] + Seq::new((n - 1) as nat, line);
        assert(lines.push(none).drop_last() =~= lines);
        assert((seq![top] + Seq::new(n as nat, line)).push(none) =~= lines.push(next).push(none));
    }
    assert(Seq::new(n as nat, |i: int| matrix_line(w, cores, matrix, i)) =~= Seq::new(
        n as nat,
        line,
    ));
}

proof fn lemma_int_plain(n: int)
    ensures
        !number::dec_int(n).contains(','),
        !number::dec_int(n).contains('\n'),
{
    lemma_dec_plain(n as nat);
    lemma_dec_plain((-n) as nat);
    if n < 0 {
        let sign = seq!['-'];
        assert(!sign.contains(',') && !sign.contains('\n'));
        lemma_no_end(sign, number::dec((-n) as nat), ',');
        lemma_no_end(sign, number::dec((-n) as nat), '\n');
    }
}

proof fn lemma_hex_plain(n: nat)
    ensures
        !number::hex(n).contains(','),
        !number::hex(n).contains('\n'),
    decreases n,
{
    let h = number::hex(n);
    if n < 16 {
        assert(h[0] != ',' && h[0] != '\n');
    } else {
        lemma_hex_plain(n / 16);
        let last = seq![number::digit_char(n % 16)];
        assert(last[0] != ',' && last[0] != '\n');
        lemma_no_end(number::hex(n / 16), last, ',');
        lemma_no_end(number::hex(n / 16), last, '\n');
        assert(h =~= number::hex(n / 16) + last);
    }
}

/// The columns of a line, put together with commas.
spec fn line_of(columns: Seq<Seq<char>>) -> Seq<char>
    decreases columns.len(),
{
    if columns.len() <= 1 {
        columns[0]
    } else {
        line_of(columns.drop_last()) + ","@ + columns.last()
    }
}

/// Whether no column holds a comma or the end of a line.
spec fn all_plain(columns: Seq<Seq<char>>) -> bool {
    forall|i: int|
        0 <= i < columns.len() ==> !(#[trigger] columns[i]).contains(',') && !columns[i].contains(
            '\n',
        )
}

proof fn lemma_line_of(columns: Seq<Seq<char>>)
    requires
        columns.len() > 0,
        all_plain(columns),
    ensures
        text::pieces(line_of(columns), ',') == columns,
        !line_of(columns).contains('\n'),
    decreases columns.len(),
{
    if columns.len() == 1 {
        lemma_no_comma(columns[0]);
        assert(seq![columns[0]] =~= columns);
    } else {
        let d = columns.drop_last();
        assert forall|i: int| 0 <= i < d.len() implies !(#[trigger] d[i]).contains(',')
            && !d[i].contains('\n') by {
            assert(d[i] == columns[i]);
        }
        lemma_line_of(d);
        let last = columns[columns.len() - 1];
        lemma_column_added(line_of(d), last);
        reveal_strlit(",");
        assert(!","@.contains('\n'));
        lemma_no_end(line_of(d), ","@, '\n');
        lemma_no_end(line_of(d) + ","@, last, '\n');
        assert(d.push(last) =~= columns);
    }
}

/// One more column of a line.
proof fn lemma_line_pushed(columns: Seq<Seq<char>>, last: Seq<char>)
    requires
        columns.len() > 0,
    ensures
        line_of(columns.push(last)) == line_of(columns) + ","@ + last,
{
    assert(columns.push(last).drop_last() =~= columns);
}

/// The columns of the cores of a row, and of their nodes.
spec fn core_texts(p: Place) -> Seq<Seq<char>> {
    seq![number::dec(p.ping_core as nat)].push(number::dec(p.pong_core as nat)).push(
        number::dec_int(p.ping_numa as int),
    ).push(number::dec_int(p.pong_numa as int))
}

/// The columns with those of the statistics behind them.
spec fn with_stats(w: Notation, before: Seq<Seq<char>>, s: Stats) -> Seq<Seq<char>> {
    before.push(w(2, s.mean)).push(w(2, s.median)).push(w(2, s.min)).push(w(2, s.max)).push(
        w(2, s.cv_percent),
    )
}

proof fn lemma_core_texts(p: Place)
    ensures
        all_plain(core_texts(p)),
        core_columns(p) == line_of(core_texts(p)) + ","@,
{
    lemma_dec_plain(p.ping_core as nat);
    lemma_dec_plain(p.pong_core as nat);
    lemma_int_plain(p.ping_numa as int);
    lemma_int_plain(p.pong_numa as int);
    let a = seq![number::dec(p.ping_core as nat)];
    let b = a.push(number::dec(p.pong_core as nat));
    let c = b.push(number::dec_int(p.ping_numa as int));
    lemma_line_pushed(a, number::dec(p.pong_core as nat));
    lemma_line_pushed(b, number::dec_int(p.ping_numa as int));
    lemma_line_pushed(c, number::dec_int(p.pong_numa as int));
    assert(line_of(a) == number::dec(p.ping_core as nat));
    assert(core_columns(p) =~= line_of(core_texts(p)) + ","@);
}

proof fn lemma_with_stats(w: Notation, before: Seq<Seq<char>>, s: Stats)
    requires
        plain(w),
        before.len() > 0,
        all_plain(before),
    ensures
        all_plain(with_stats(w, before, s)),
        line_of(with_stats(w, before, s)) == line_of(before) + ","@ + stats_columns(w, s),
{
    let a = before.push(w(2, s.mean));
    let b = a.push(w(2, s.median));
    let c = b.push(w(2, s.min));
    let d = c.push(w(2, s.max));
    lemma_line_pushed(before, w(2, s.mean));
    lemma_line_pushed(a, w(2, s.median));
    lemma_line_pushed(b, w(2, s.min));
    lemma_line_pushed(c, w(2, s.max));
    lemma_line_pushed(d, w(2, s.cv_percent));
    assert(line_of(with_stats(w, before, s)) =~= line_of(before) + ","@ + stats_columns(w, s));
}

/// The columns of the row of a cell.
spec fn address_texts(w: Notation, row: PerAddressRow) -> Seq<Seq<char>> {
    with_stats(
        w,
        core_texts(row.place).push(number::dec_int(row.place.mem_numa as int)).push(
            number::dec(row.address as nat),
        ).push("0x"@ + number::hex(row.vaddr as nat)),
        row.stats,
    )
}

/// The columns of the row of a group.
spec fn group_texts(
    w: Notation,
    records: Seq<CellRecord>,
    group: (usize, Stats),
    with_domain: bool,
) -> Seq<Seq<char>> {
    let p = records[group.0 as int].place;
    with_stats(
        w,
        if with_domain {
            core_texts(p).push(number::dec_int(p.mem_numa as int))
        } else {
            core_texts(p)
        },
        group.1,
    )
}

proof fn lemma_address_row(w: Notation, row: PerAddressRow)
    requires
        plain(w),
    ensures
        all_plain(address_texts(w, row)),
        address_row(w, row) == line_of(address_texts(w, row)) + "\n"@,
{
    let p = row.place;
    reveal_strlit(",0x");
    reveal_strlit("0x");
    reveal_strlit(",");
    assert(",0x"@ =~= ","@ + "0x"@);
    assert(!"0x"@.contains(',') && !"0x"@.contains('\n'));
    lemma_hex_plain(row.vaddr as nat);
    lemma_no_end("0x"@, number::hex(row.vaddr as nat), ',');
    lemma_no_end("0x"@, number::hex(row.vaddr as nat), '\n');
    lemma_core_texts(p);
    lemma_int_plain(p.mem_numa as int);
    lemma_dec_plain(row.address as nat);
    let a = core_texts(p);
    let b = a.push(number::dec_int(p.mem_numa as int));
    let c = b.push(number::dec(row.address as nat));
    let d = c.push("0x"@ + number::hex(row.vaddr as nat));
    lemma_line_pushed(a, number::dec_int(p.mem_numa as int));
    lemma_line_pushed(b, number::dec(row.address as nat));
    lemma_line_pushed(c, "0x"@ + number::hex(row.vaddr as nat));
    lemma_with_stats(w, d, row.stats);
    assert(address_row(w, row) =~= line_of(address_texts(w, row)) + "\n"@);
}

proof fn lemma_group_row(
    w: Notation,
    records: Seq<CellRecord>,
    group: (usize, Stats),
    with_domain: bool,
)
    requires
        plain(w),
    ensures
        all_plain(group_texts(w, records, group, with_domain)),
        group_row(w, records, group, with_domain) == line_of(
            group_texts(w, records, group, with_domain),
        ) + "\n"@,
{
    reveal_strlit("");
    let p = records[group.0 as int].place;
    lemma_core_texts(p);
    lemma_int_plain(p.mem_numa as int);
    let a = core_texts(p);
    let b = a.push(number::dec_int(p.mem_numa as int));
    lemma_line_pushed(a, number::dec_int(p.mem_numa as int));
    lemma_with_stats(w, a, group.1);
    lemma_with_stats(w, b, group.1);
    assert(group_row(w, records, group, with_domain) =~= line_of(
        group_texts(w, records, group, with_domain),
    ) + "\n"@);
}

proof fn lemma_only_line(top: Seq<char>)
    requires
        !top.contains('\n'),
    ensures
        text::ends_line(top + "\n"@),
        text::pieces(top + "\n"@, '\n') == seq![top, Seq::<char>::empty()],
{
    reveal_strlit("\n");
    assert("\n"@ =~= seq!['\n']);
    let none = Seq::<char>::empty();
    text::lemma_line_added(none, top);
    text::lemma_position_is(none, '\n', 0);
    assert(text::pieces(none, '\n') == seq![none]);
    assert(seq![none].drop_last() =~= Seq::<Seq<char>>::empty());
    assert(none + top + seq!['\n'] =~= top + "\n"@);
    assert(Seq::<Seq<char>>::empty().push(top).push(none) =~= seq![top, none]);
}

proof fn lemma_address_lines(w: Notation, top: Seq<char>, rows: Seq<PerAddressRow>)
    requires
        plain(w),
        !top.contains('\n'),
    ensures
        text::ends_line(top + "\n"@ + address_rows(w, rows)),
        ({
            let lines = text::pieces(top + "\n"@ + address_rows(w, rows), '\n');
            &&& lines.len() == rows.len() + 2
            &&& lines[0] == top
            &&& lines.last().len() == 0
            &&& forall|i: int|
                0 <= i < rows.len() ==> #[trigger] lines[i + 1] == line_of(
                    address_texts(w, rows[i]),
                )
        }),
    decreases rows.len(),
{
    reveal_strlit("\n");
    assert("\n"@ =~= seq!['\n']);
    if rows.len() == 0 {
        lemma_only_line(top);
        assert(top + "\n"@ + address_rows(w, rows) =~= top + "\n"@);
    } else {
        let d = rows.drop_last();
        lemma_address_lines(w, top, d);
        let before = top + "\n"@ + address_rows(w, d);
        let next = line_of(address_texts(w, rows.last()));
        lemma_address_row(w, rows.last());
        lemma_line_of(address_texts(w, rows.last()));
        text::lemma_line_added(before, next);
        assert(top + "\n"@ + address_rows(w, rows) =~= before + next + seq!['\n']);
        let old_lines = text::pieces(before, '\n');
        let lines = text::pieces(top + "\n"@ + address_rows(w, rows), '\n');
        assert forall|i: int| 0 <= i < rows.len() implies #[trigger] lines[i + 1] == line_of(
            address_texts(w, rows[i]),
        ) by {
            if i < d.len() {
                assert(lines[i + 1] == old_lines[i + 1]);
                assert(d[i] == rows[i]);
            }
        }
    }
}

proof fn lemma_group_lines(
    w: Notation,
    top: Seq<char>,
    records: Seq<CellRecord>,
    groups: Seq<(usize, Stats)>,
    with_domain: bool,
)
    requires
        plain(w),
        !top.contains('\n'),
    ensures
        text::ends_line(top + "\n"@ + group_rows(w, records, groups, with_domain)),
        ({
            let lines = text::pieces(
                top + "\n"@ + group_rows(w, records, groups, with_domain),
                '\n',
            );
            &&& lines.len() == groups.len() + 2
            &&& lines[0] == top
            &&& lines.last().len() == 0
            &&& forall|i: int|
                0 <= i < groups.len() ==> #[trigger] lines[i + 1] == line_of(
                    group_texts(w, records, groups[i], with_domain),
                )
        }),
    decreases groups.len(),
{
    reveal_strlit("\n");
    assert("\n"@ =~= seq!['\n']);
    if groups.len() == 0 {
        lemma_only_line(top);
        assert(top + "\n"@ + group_rows(w, records, groups, with_domain) =~= top + "\n"@);
    } else {
        let d = groups.drop_last();
        lemma_group_lines(w, top, records, d, with_domain);
        let before = top + "\n"@ + group_rows(w, records, d, with_domain);
        let next = line_of(group_texts(w, records, groups.last(), with_domain));
        lemma_group_row(w, records, groups.last(), with_domain);
        lemma_line_of(group_texts(w, records, groups.last(), with_domain));
        text::lemma_line_added(before, next);
        assert(top + "\n"@ + group_rows(w, records, groups, with_domain) =~= before + next
            + seq!['\n']);
        let old_lines = text::pieces(before, '\n');
        let lines = text::pieces(top + "\n"@ + group_rows(w, records, groups, with_domain), '\n');
        assert forall|i: int| 0 <= i < groups.len() implies #[trigger] lines[i + 1] == line_of(
            group_texts(w, records, groups[i], with_domain),
        ) by {
            if i < d.len() {
                assert(lines[i + 1] == old_lines[i + 1]);
                assert(d[i] == groups[i]);
            }
        }
    }
}

/// The file of the cells can be read back: behind the header there is one line
/// for each row, in order, and its columns are the cores, their nodes, the node
/// of the memory, the address, its virtual address in hexadecimal, and the
/// statistics to two decimals.
pub proof fn law_per_address_reads_back(w: Notation, rows: Seq<PerAddressRow>, i: int)
    requires
        plain(w),
        0 <= i < rows.len(),
    ensures
        ({
            let lines = text::pieces(per_address_csv(w, rows), '\n');
            let p = rows[i].place;
            let s = rows[i].stats;
            &&& lines.len() == rows.len() + 2
            &&& lines.last().len() == 0
            &&& lines[0]
                == "ping_core,pong_core,ping_numa,pong_numa,mem_numa,address,vaddr,mean_latency,median_latency,min_latency,max_latency,cv_percent"@
            &&& text::pieces(lines[i + 1], ',') == seq![
                number::dec(p.ping_core as nat),
                number::dec(p.pong_core as nat),
                number::dec_int(p.ping_numa as int),
                number::dec_int(p.pong_numa as int),
                number::dec_int(p.mem_numa as int),
                number::dec(rows[i].address as nat),
                seq!['0', 'x'] + number::hex(rows[i].vaddr as nat),
                w(2, s.mean),
                w(2, s.median),
                w(2, s.min),
                w(2, s.max),
                w(2, s.cv_percent),
            ]
        }),
{
    let top =
        "ping_core,pong_core,ping_numa,pong_numa,mem_numa,address,vaddr,mean_latency,median_latency,min_latency,max_latency,cv_percent"@;
    let p = rows[i].place;
    let s = rows[i].stats;
    reveal_strlit(
        "ping_core,pong_core,ping_numa,pong_numa,mem_numa,address,vaddr,mean_latency,median_latency,min_latency,max_latency,cv_percent",
    );
    reveal_strlit(
        "ping_core,pong_core,ping_numa,pong_numa,mem_numa,address,vaddr,mean_latency,median_latency,min_latency,max_latency,cv_percent\n",
    );
    reveal_strlit("\n");
    reveal_strlit("0x");
    assert("0x"@ =~= seq!['0', 'x']);
    assert(!top.contains('\n'));
    assert(top + "\n"@
        =~= "ping_core,pong_core,ping_numa,pong_numa,mem_numa,address,vaddr,mean_latency,median_latency,min_latency,max_latency,cv_percent\n"@);
    lemma_address_lines(w, top, rows);
    lemma_address_row(w, rows[i]);
    lemma_line_of(address_texts(w, rows[i]));
    let lines = text::pieces(per_address_csv(w, rows), '\n');
    assert(lines[i + 1] == line_of(address_texts(w, rows[i])));
    assert(address_texts(w, rows[i]) =~= seq![
        number::dec(p.ping_core as nat),
        number::dec(p.pong_core as nat),
        number::dec_int(p.ping_numa as int),
        number::dec_int(p.pong_numa as int),
        number::dec_int(p.mem_numa as int),
        number::dec(rows[i].address as nat),
        seq!['0', 'x'] + number::hex(rows[i].vaddr as nat),
        w(2, s.mean),
        w(2, s.median),
        w(2, s.min),
        w(2, s.max),
        w(2, s.cv_percent),
    ]);
}

/// The file of the domains can be read back: behind the header there is one
/// line for each group, in order, and its columns are the cores, their nodes,
/// the node of the memory, and the statistics to two decimals.
pub proof fn law_per_domain_reads_back(
    w: Notation,
    records: Seq<CellRecord>,
    groups: Seq<(usize, Stats)>,
    i: int,
)
    requires
        plain(w),
        0 <= i < groups.len(),
    ensures
        ({
            let lines = text::pieces(per_domain_csv(w, records, groups), '\n');
            let p = records[groups[i].0 as int].place;
            let s = groups[i].1;
            &&& lines.len() == groups.len() + 2
            &&& lines.last().len() == 0
            &&& lines[0]
                == "ping_core,pong_core,ping_numa,pong_numa,mem_numa,mean_latency,median_latency,min_latency,max_latency,cv_percent"@
            &&& text::pieces(lines[i + 1], ',') == seq![
                number::dec(p.ping_core as nat),
                number::dec(p.pong_core as nat),
                number::dec_int(p.ping_numa as int),
                number::dec_int(p.pong_numa as int),
                number::dec_int(p.mem_numa as int),
                w(2, s.mean),
                w(2, s.median),
                w(2, s.min),
                w(2, s.max),
                w(2, s.cv_percent),
            ]
        }),
{
    let top =
        "ping_core,pong_core,ping_numa,pong_numa,mem_numa,mean_latency,median_latency,min_latency,max_latency,cv_percent"@;
    let p = records[groups[i].0 as int].place;
    let s = groups[i].1;
    reveal_strlit(
        "ping_core,pong_core,ping_numa,pong_numa,mem_numa,mean_latency,median_latency,min_latency,max_latency,cv_percent",
    );
    reveal_strlit(
        "ping_core,pong_core,ping_numa,pong_numa,mem_numa,mean_latency,median_latency,min_latency,max_latency,cv_percent\n",
    );
    reveal_strlit("\n");
    assert(!top.contains('\n'));
    assert(top + "\n"@
        =~= "ping_core,pong_core,ping_numa,pong_numa,mem_numa,mean_latency,median_latency,min_latency,max_latency,cv_percent\n"@);
    lemma_group_lines(w, top, records, groups, true);
    lemma_group_row(w, records, groups[i], true);
    lemma_line_of(group_texts(w, records, groups[i], true));
    let lines = text::pieces(per_domain_csv(w, records, groups), '\n');
    assert(lines[i + 1] == line_of(group_texts(w, records, groups[i], true)));
    assert(group_texts(w, records, groups[i], true) =~= seq![
        number::dec(p.ping_core as nat),
        number::dec(p.pong_core as nat),
        number::dec_int(p.ping_numa as int),
        number::dec_int(p.pong_numa as int),
        number::dec_int(p.mem_numa as int),
        w(2, s.mean),
        w(2, s.median),
        w(2, s.min),
        w(2, s.max),
        w(2, s.cv_percent),
    ]);
}

/// The file of the pairs can be read back: behind the header there is one line
/// for each group, in order, and its columns are the cores, their nodes, and
/// the statistics to two decimals.
pub proof fn law_per_pair_reads_back(
    w: Notation,
    records: Seq<CellRecord>,
    groups: Seq<(usize, Stats)>,
    i: int,
)
    requires
        plain(w),
        0 <= i < groups.len(),
    ensures
        ({
            let lines = text::pieces(per_pair_csv(w, records, groups), '\n');
            let p = records[groups[i].0 as int].place;
            let s = groups[i].1;
            &&& lines.len() == groups.len() + 2
            &&& lines.last().len() == 0
            &&& lines[0]
                == "ping_core,pong_core,ping_numa,pong_numa,mean_latency,median_latency,min_latency,max_latency,cv_percent"@
            &&& text::pieces(lines[i + 1], ',') == seq![
                number::dec(p.ping_core as nat),
                number::dec(p.pong_core as nat),
                number::dec_int(p.ping_numa as int),
                number::dec_int(p.pong_numa as int),
                w(2, s.mean),
                w(2, s.median),
                w(2, s.min),
                w(2, s.max),
                w(2, s.cv_percent),
            ]
        }),
{
    let top =
        "ping_core,pong_core,ping_numa,pong_numa,mean_latency,median_latency,min_latency,max_latency,cv_percent"@;
    let p = records[groups[i].0 as int].place;
    let s = groups[i].1;
    reveal_strlit(
        "ping_core,pong_core,ping_numa,pong_numa,mean_latency,median_latency,min_latency,max_latency,cv_percent",
    );
    reveal_strlit(
        "ping_core,pong_core,ping_numa,pong_numa,mean_latency,median_latency,min_latency,max_latency,cv_percent\n",
    );
    reveal_strlit("\n");
    assert(!top.contains('\n'));
    assert(top + "\n"@
        =~= "ping_core,pong_core,ping_numa,pong_numa,mean_latency,median_latency,min_latency,max_latency,cv_percent\n"@);
    lemma_group_lines(w, top, records, groups, false);
    lemma_group_row(w, records, groups[i], false);
    lemma_line_of(group_texts(w, records, groups[i], false));
    let lines = text::pieces(per_pair_csv(w, records, groups), '\n');
    assert(lines[i + 1] == line_of(group_texts(w, records, groups[i], false)));
    assert(group_texts(w, records, groups[i], false) =~= seq![
        number::dec(p.ping_core as nat),
        number::dec(p.pong_core as nat),
        number::dec_int(p.ping_numa as int),
        number::dec_int(p.pong_numa as int),
        w(2, s.mean),
        w(2, s.median),
        w(2, s.min),
        w(2, s.max),
        w(2, s.cv_percent),
    ]);
}

/// The files of a run: that of the cells first and that of the pairs last; only
/// with more than one domain, that of the domains between them. Each is named
/// by the prefix, the benchmark and what it holds.
pub proof fn law_files(
    m: Arith,
    w: Notation,
    prefix: Seq<char>,
    bench: Seq<char>,
    num_domains: usize,
    records: Seq<CellRecord>,
    rows: Seq<PerAddressRow>,
)
    ensures
        ({
            let files = csv_models(m, w, prefix, bench, num_domains, records, rows);
            &&& files.len() == (if num_domains > 1 {
                3nat
            } else {
                2nat
            })
            &&& files[0] == (
                prefix + seq!['.'] + bench + ".per_address.csv"@,
                per_address_csv(w, rows),
            )
            &&& files.last() == (
                prefix + seq!['.'] + bench + ".per_pair.csv"@,
                per_pair_csv(w, records, cells::pair_groups(m, records)),
            )
            &&& num_domains > 1 ==> files[1] == (
                prefix + seq!['.'] + bench + ".per_domain.csv"@,
                per_domain_csv(w, records, cells::domain_groups(m, records)),
            )
        }),
{
    reveal_strlit(".");
    reveal_strlit(".csv");
    reveal_strlit("per_address");
    reveal_strlit("per_domain");
    reveal_strlit("per_pair");
    reveal_strlit(".per_address.csv");
    reveal_strlit(".per_domain.csv");
    reveal_strlit(".per_pair.csv");
    assert(csv_name(prefix, bench, "per_address"@) =~= prefix + seq!['.'] + bench
        + ".per_address.csv"@);
    assert(csv_name(prefix, bench, "per_domain"@) =~= prefix + seq!['.'] + bench
        + ".per_domain.csv"@);
    assert(csv_name(prefix, bench, "per_pair"@) =~= prefix + seq!['.'] + bench
        + ".per_pair.csv"@);
}

/// The matrix of a run can be read back from the records: in the line of a ping
/// core and the column of a pong core stands the mean of the collapsed values
/// of all records of that pair, over all domains and addresses; in a symmetric
/// benchmark, where only one order is measured, in the line of the pong core
/// and the column of the ping core too.
pub proof fn law_matrix_of_records(
    m: Arith,
    w: Notation,
    cores: Seq<CoreId>,
    records: Seq<CellRecord>,
    symmetric: bool,
    i: int,
    j: int,
    k: int,
)
    requires
        plain(w),
        distinct(cores),
        0 <= i < cores.len(),
        0 <= j < cores.len(),
        0 <= k < records.len() <= usize::MAX,
        records[k].place.ping_core == cores[i].id,
        records[k].place.pong_core == cores[j].id,
        forall|x: int| 0 <= x < records.len() ==> !(#[trigger] records[x]).collapsed.not_a_number(),
        symmetric && i != j ==> forall|x: int|
            0 <= x < records.len() ==> !cells::of_pair(cores[j].id, cores[i].id)(
                #[trigger] records[x],
            ),
    ensures
        ({
            let values = records.filter(cells::of_pair(cores[i].id, cores[j].id)).map_values(
                cells::collapsed_value(),
            );
            let mean = m(Op::Mean, values);
            let lines = text::pieces(
                matrix_text(
                    w,
                    cores,
                    matrix_of(cores, records, cells::pair_groups(m, records), symmetric),
                ),
                '\n',
            );
            let shown = text::pieces(lines[i + 1], ',')[j + 1];
            let mirrored = text::pieces(lines[j + 1], ',')[i + 1];
            &&& !mean.not_a_number() ==> shown == w(1, mean)
            &&& symmetric && !mean.not_a_number() ==> mirrored == w(1, mean)
        }),
{
    let groups = cells::pair_groups(m, records);
    let g = cells::law_pair_group(m, records, k);
    let same = cells::of_pair(cores[i].id, cores[j].id);
    let values = records.filter(same).map_values(cells::collapsed_value());
    let matrix = matrix_of(cores, records, groups, symmetric);
    assert(has_pair(records, groups[g], cores[i].id, cores[j].id));
    assert forall|h: int| 0 <= h < groups.len() && h != g implies !has_pair(
        records,
        #[trigger] groups[h],
        cores[i].id,
        cores[j].id,
    ) && !(symmetric && has_pair(records, groups[h], cores[j].id, cores[i].id)) by {
        let x = groups[h].0 as int;
        assert(!same(records[x]));
        if symmetric && i != j {
            assert(!cells::of_pair(cores[j].id, cores[i].id)(records[x]));
        }
    }
    law_matrix_entry(cores, records, groups, symmetric, i, j, g);
    law_matrix_entry(cores, records, groups, symmetric, j, i, g);
    law_matrix_reads_back(w, cores, matrix, i, j);
    law_matrix_reads_back(w, cores, matrix, j, i);
    lemma_kept_are_numbers(records, same);
    stats::law_numbers(values);
}

proof fn lemma_kept_are_numbers(records: Seq<CellRecord>, same: spec_fn(CellRecord) -> bool)
    requires
        forall|x: int| 0 <= x < records.len() ==> !(#[trigger] records[x]).collapsed.not_a_number(),
    ensures
        ({
            let values = records.filter(same).map_values(cells::collapsed_value());
            forall|x: int| 0 <= x < values.len() ==> !(#[trigger] values[x]).not_a_number()
        }),
    decreases records.len(),
{
    reveal(Seq::filter);
    if records.len() > 0 {
        let d = records.drop_last();
        assert forall|x: int| 0 <= x < d.len() implies !(
        #[trigger] d[x]).collapsed.not_a_number() by {
            assert(d[x] == records[x]);
        }
        lemma_kept_are_numbers(d, same);
        let before = d.filter(same).map_values(cells::collapsed_value());
        let values = records.filter(same).map_values(cells::collapsed_value());
        assert(!records[records.len() - 1].collapsed.not_a_number());
        assert forall|x: int| 0 <= x < values.len() implies !(
        #[trigger] values[x]).not_a_number() by {
            if x < before.len() {
                assert(values[x] == before[x]);
            }
        }
    }
}

/// What is said of a CSV file names its path, and ends with the error where it
/// could not be created.
pub proof fn law_created(path: Seq<char>, error: Seq<char>)
    ensures
        created_text(path) == "    Writing CSV: "@ + (path + "\n"@),
        not_created_text(path, error) == "    ERROR: Failed to create "@ + (path + ": "@ + error
            + "\n"@),
{
    assert(created_text(path) =~= "    Writing CSV: "@ + (path + "\n"@));
    assert(not_created_text(path, error) =~= "    ERROR: Failed to create "@ + (path + ": "@
        + error + "\n"@));
}

} // verus!
