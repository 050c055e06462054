//! A whole run: what the tally holds once every step of a sweep was taken.

use crate::bench::Run;
use crate::cells;
use crate::cells::{CellRecord, PerAddressRow, Place};
use crate::double;
use crate::double::{Arith, Double};
use crate::numa::Placed;
use crate::select::CoreId;
use crate::stats;
use crate::sweep;
use crate::sweep::{Settings, StepModel, TallyModel};
use crate::timing;
use vstd::prelude::*;

verus! {

/// What a run is made on, and what it measures: for each domain and each pair
/// of positions the durations of every address, and for each domain where its
/// addresses are.
pub struct Scene {
    pub cores: Seq<CoreId>,
    pub core_numa: Map<usize, i32>,
    pub placed: Seq<Placed>,
    pub settings: Settings,
    pub durations: spec_fn(int, int, int) -> Seq<Seq<Double>>,
    pub vaddrs: spec_fn(int) -> Seq<usize>,
}

/// A cell: a domain, the positions of the ping and the pong core, an address.
pub struct Cell {
    pub domain: int,
    pub ping: int,
    pub pong: int,
    pub address: int,
}

impl Scene {
    /// The place of a measurement.
    pub open spec fn place(self, domain: int, ping: int, pong: int) -> Place {
        sweep::place_of(
            self.core_numa,
            self.placed,
            domain,
            self.cores[ping],
            self.cores[pong],
        )
    }

    /// The samples of a cell.
    pub open spec fn samples(self, c: Cell) -> Seq<Double> {
        sweep::samples((self.durations)(c.domain, c.ping, c.pong), c.address)
    }

    /// Whether a sample of a cell is a number.
    pub open spec fn has_number(self, c: Cell) -> bool {
        stats::numbers(self.samples(c)).len() > 0
    }

    /// The record of a cell.
    pub open spec fn record(self, m: Arith, c: Cell) -> CellRecord {
        CellRecord {
            place: self.place(c.domain, c.ping, c.pong),
            collapsed: self.settings.sample_agg.picked(stats::stats_of(m, self.samples(c))->0),
        }
    }

    /// The row of a cell.
    pub open spec fn row(self, m: Arith, c: Cell) -> PerAddressRow {
        PerAddressRow {
            place: self.place(c.domain, c.ping, c.pong),
            address: c.address as usize,
            vaddr: sweep::vaddr_at((self.vaddrs)(c.domain), c.address),
            stats: stats::stats_of(m, self.samples(c))->0,
        }
    }

    /// The tally after the steps: each measurement adds its pair.
    pub open spec fn tally(self, m: Arith, t: TallyModel, steps: Seq<StepModel>) -> TallyModel
        decreases steps.len(),
    {
        if steps.len() == 0 {
            t
        } else {
            let before = self.tally(m, t, steps.drop_last());
            match steps.last() {
                StepModel::Print(_) => before,
                StepModel::Measure(d, i, j) => sweep::cells_added(
                    m,
                    before,
                    self.settings,
                    self.place(d, i, j),
                    (self.vaddrs)(d),
                    (self.durations)(d, i, j),
                    self.settings.num_addresses as int,
                ),
            }
        }
    }

    /// The first `n` cells of a measurement that hold a number, in order.
    pub open spec fn pair_cells(self, d: int, i: int, j: int, n: int) -> Seq<Cell>
        decreases n,
    {
        if n <= 0 {
            seq![]
        } else {
            let c = Cell { domain: d, ping: i, pong: j, address: n - 1 };
            let before = self.pair_cells(d, i, j, n - 1);
            if self.has_number(c) {
                before.push(c)
            } else {
                before
            }
        }
    }

    /// The cells of the measurements among the steps that hold a number, in order.
    pub open spec fn cells(self, steps: Seq<StepModel>) -> Seq<Cell>
        decreases steps.len(),
    {
        if steps.len() == 0 {
            seq![]
        } else {
            match steps.last() {
                StepModel::Print(_) => self.cells(steps.drop_last()),
                StepModel::Measure(d, i, j) => self.cells(steps.drop_last()) + self.pair_cells(
                    d,
                    i,
                    j,
                    self.settings.num_addresses as int,
                ),
            }
        }
    }
}

impl Scene {
    /// The samples of every measurement among the steps, in order: those of all
    /// of its addresses, one address after the other.
    pub open spec fn all_samples(self, steps: Seq<StepModel>) -> Seq<Double>
        decreases steps.len(),
    {
        if steps.len() == 0 {
            seq![]
        } else {
            match steps.last() {
                StepModel::Print(_) => self.all_samples(steps.drop_last()),
                StepModel::Measure(d, i, j) => self.all_samples(steps.drop_last())
                    + sweep::all_samples(
                    (self.durations)(d, i, j),
                    self.settings.num_addresses as int,
                ),
            }
        }
    }
}

/// A tally of nothing.
pub open spec fn nothing() -> TallyModel {
    TallyModel { sum: double::zero(), count: 0, records: seq![], rows: seq![] }
}

/// How often a cell stands in a list.
pub open spec fn times(v: Seq<Cell>, c: Cell) -> nat
    decreases v.len(),
{
    if v.len() == 0 {
        0
    } else {
        times(v.drop_last(), c) + (if v.last() == c {
            1nat
        } else {
            0nat
        })
    }
}

/// The records of the cells.
pub open spec fn records_of(s: Scene, m: Arith, v: Seq<Cell>) -> Seq<CellRecord> {
    v.map_values(|c: Cell| s.record(m, c))
}

/// The rows of the cells.
pub open spec fn rows_of(s: Scene, m: Arith, v: Seq<Cell>) -> Seq<PerAddressRow> {
    v.map_values(|c: Cell| s.row(m, c))
}

// ---------------------------------------------------------------------------
// One measurement
// ---------------------------------------------------------------------------

proof fn lemma_pair(s: Scene, m: Arith, t: TallyModel, d: int, i: int, j: int, n: int)
    requires
        n <= s.settings.num_addresses,
    ensures
        ({
            let after = sweep::cells_added(
                m,
                t,
                s.settings,
                s.place(d, i, j),
                (s.vaddrs)(d),
                (s.durations)(d, i, j),
                n,
            );
            let v = s.pair_cells(d, i, j, n);
            &&& after.records == t.records + records_of(s, m, v)
            &&& after.rows == (if s.settings.csv {
                t.rows + rows_of(s, m, v)
            } else {
                t.rows
            })
        }),
    decreases n,
{
    let v = s.pair_cells(d, i, j, n);
    let after = sweep::cells_added(
        m,
        t,
        s.settings,
        s.place(d, i, j),
        (s.vaddrs)(d),
        (s.durations)(d, i, j),
        n,
    );
    if n <= 0 {
        assert(after.records =~= t.records + records_of(s, m, v));
        assert(t.rows =~= t.rows + rows_of(s, m, v));
    } else {
        lemma_pair(s, m, t, d, i, j, n - 1);
        let w = s.pair_cells(d, i, j, n - 1);
        let c = Cell { domain: d, ping: i, pong: j, address: n - 1 };
        if s.has_number(c) {
            assert(records_of(s, m, v) =~= records_of(s, m, w).push(s.record(m, c)));
            assert(rows_of(s, m, v) =~= rows_of(s, m, w).push(s.row(m, c)));
        }
        assert(after.records =~= t.records + records_of(s, m, v));
        if s.settings.csv {
            assert(after.rows =~= t.rows + rows_of(s, m, v));
        }
    }
}

proof fn lemma_times_concat(a: Seq<Cell>, b: Seq<Cell>, c: Cell)
    ensures
        times(a + b, c) == times(a, c) + times(b, c),
    decreases b.len(),
{
    if b.len() == 0 {
        assert(a + b =~= a);
    } else {
        lemma_times_concat(a, b.drop_last(), c);
        assert((a + b).drop_last() =~= a + b.drop_last());
    }
}

proof fn lemma_pair_times(s: Scene, d: int, i: int, j: int, n: int, c: Cell)
    ensures
        times(s.pair_cells(d, i, j, n), c) == (if c.domain == d && c.ping == i && c.pong == j && 0
            <= c.address < n && s.has_number(c) {
            1nat
        } else {
            0nat
        }),
    decreases n,
{
    if n > 0 {
        lemma_pair_times(s, d, i, j, n - 1, c);
        let x = Cell { domain: d, ping: i, pong: j, address: n - 1 };
        let w = s.pair_cells(d, i, j, n - 1);
        assert(w.push(x).drop_last() =~= w);
    }
}

proof fn lemma_pair_len(s: Scene, d: int, i: int, j: int, n: int)
    requires
        0 <= n,
    ensures
        s.pair_cells(d, i, j, n).len() <= n,
        (forall|a: int|
            0 <= a < n ==> #[trigger] s.has_number(
                Cell { domain: d, ping: i, pong: j, address: a },
            )) ==> s.pair_cells(d, i, j, n).len() == n,
    decreases n,
{
    if n > 0 {
        lemma_pair_len(s, d, i, j, n - 1);
        if forall|a: int|
            0 <= a < n ==> #[trigger] s.has_number(
                Cell { domain: d, ping: i, pong: j, address: a },
            ) {
            assert(s.has_number(Cell { domain: d, ping: i, pong: j, address: n - 1 }));
        }
    }
}

// ---------------------------------------------------------------------------
// All measurements
// ---------------------------------------------------------------------------

/// What the tally holds after the steps: what it held before, and the record of
/// each cell that holds a number, in order; its row too, with CSV output.
pub proof fn law_tally_of_steps(s: Scene, m: Arith, t: TallyModel, steps: Seq<StepModel>)
    ensures
        s.tally(m, t, steps).records == t.records + records_of(s, m, s.cells(steps)),
        s.tally(m, t, steps).rows == (if s.settings.csv {
            t.rows + rows_of(s, m, s.cells(steps))
        } else {
            t.rows
        }),
    decreases steps.len(),
{
    let after = s.tally(m, t, steps);
    if steps.len() == 0 {
        assert(after.records =~= t.records + records_of(s, m, s.cells(steps)));
        assert(t.rows =~= t.rows + rows_of(s, m, s.cells(steps)));
    } else {
        let d = steps.drop_last();
        law_tally_of_steps(s, m, t, d);
        if let StepModel::Measure(x, i, j) = steps.last() {
            let n = s.settings.num_addresses as int;
            lemma_pair(s, m, s.tally(m, t, d), x, i, j, n);
            let a = s.cells(d);
            let b = s.pair_cells(x, i, j, n);
            assert(records_of(s, m, a + b) =~= records_of(s, m, a) + records_of(s, m, b));
            assert(rows_of(s, m, a + b) =~= rows_of(s, m, a) + rows_of(s, m, b));
            assert(after.records =~= t.records + records_of(s, m, a + b));
            if s.settings.csv {
                assert(after.rows =~= t.rows + rows_of(s, m, a + b));
            }
        }
    }
}

/// The sum of the tally after the steps is what it was before with all samples
/// of all measurements added, from the first to the last, and just these are
/// counted. After a measurement more, the sum is what it was with the samples
/// of all addresses of that measurement added.
pub proof fn law_sum_of_steps(
    s: Scene,
    m: Arith,
    t: TallyModel,
    steps: Seq<StepModel>,
    d: int,
    i: int,
    j: int,
)
    ensures
        s.tally(m, t, steps).sum == s.all_samples(steps).fold_left(t.sum, sweep::adding(m)),
        s.tally(m, t, steps).count == t.count + s.all_samples(steps).len(),
        s.tally(m, t, steps.push(StepModel::Measure(d, i, j))).sum == sweep::all_samples(
            (s.durations)(d, i, j),
            s.settings.num_addresses as int,
        ).fold_left(s.tally(m, t, steps).sum, sweep::adding(m)),
        s.tally(m, t, steps.push(StepModel::Measure(d, i, j))).count == s.tally(m, t, steps).count
            + sweep::all_samples((s.durations)(d, i, j), s.settings.num_addresses as int).len(),
    decreases steps.len(),
{
    let n = s.settings.num_addresses as int;
    let more = steps.push(StepModel::Measure(d, i, j));
    assert(more.drop_last() =~= steps);
    lemma_measurement(s, m, s.tally(m, t, steps), d, i, j);
    if steps.len() > 0 {
        let before = steps.drop_last();
        law_sum_of_steps(s, m, t, before, d, i, j);
        if let StepModel::Measure(x, p, q) = steps.last() {
            lemma_measurement(s, m, s.tally(m, t, before), x, p, q);
            sweep::lemma_added_in_turn(
                m,
                t.sum,
                s.all_samples(before),
                sweep::all_samples((s.durations)(x, p, q), n),
            );
        }
    }
}

proof fn lemma_measurement(s: Scene, m: Arith, t: TallyModel, d: int, i: int, j: int)
    ensures
        ({
            let n = s.settings.num_addresses as int;
            let after = sweep::cells_added(
                m,
                t,
                s.settings,
                s.place(d, i, j),
                (s.vaddrs)(d),
                (s.durations)(d, i, j),
                n,
            );
            let v = sweep::all_samples((s.durations)(d, i, j), n);
            after.sum == v.fold_left(t.sum, sweep::adding(m)) && after.count == t.count + v.len()
        }),
{
    sweep::law_every_sample_added(
        m,
        t,
        s.settings,
        s.place(d, i, j),
        (s.vaddrs)(d),
        (s.durations)(d, i, j),
        s.settings.num_addresses as int,
    );
}

/// The sum of a whole run starts from 0 and adds the samples of every
/// measurement of the sweep, in its order; just these are counted.
pub proof fn law_sum_of_a_run(
    s: Scene,
    m: Arith,
    symmetric: bool,
    show_placement: bool,
    num_domains: int,
)
    requires
        0 <= num_domains,
    ensures
        ({
            let steps = sweep::sweep_steps(
                s.cores,
                symmetric,
                show_placement,
                s.placed,
                num_domains,
                num_domains,
            );
            let after = s.tally(m, nothing(), steps);
            let all = s.all_samples(steps);
            &&& after.sum == all.fold_left(Double { bits: 0 }, sweep::adding(m))
            &&& after.count == all.len()
            &&& sweep::in_turn(steps)
        }),
{
    let steps = sweep::sweep_steps(
        s.cores,
        symmetric,
        show_placement,
        s.placed,
        num_domains,
        num_domains,
    );
    law_sum_of_steps(s, m, nothing(), steps, 0, 0, 0);
    sweep::law_measured_in_turn(
        s.cores,
        symmetric,
        show_placement,
        s.placed,
        num_domains,
        num_domains,
    );
}

proof fn lemma_cell_times(s: Scene, steps: Seq<StepModel>, c: Cell)
    ensures
        times(s.cells(steps), c) == (if 0 <= c.address < s.settings.num_addresses && s.has_number(
            c,
        ) {
            sweep::times_measured(steps, c.domain, c.ping, c.pong)
        } else {
            0
        }),
    decreases steps.len(),
{
    if steps.len() > 0 {
        let d = steps.drop_last();
        lemma_cell_times(s, d, c);
        if let StepModel::Measure(x, i, j) = steps.last() {
            let n = s.settings.num_addresses as int;
            lemma_times_concat(s.cells(d), s.pair_cells(x, i, j, n), c);
            lemma_pair_times(s, x, i, j, n, c);
        }
    }
}

proof fn lemma_is_measured(steps: Seq<StepModel>, k: int, d: int, i: int, j: int)
    requires
        0 <= k < steps.len(),
        steps[k] == StepModel::Measure(d, i, j),
    ensures
        sweep::times_measured(steps, d, i, j) >= 1,
    decreases steps.len(),
{
    if k < steps.len() - 1 {
        lemma_is_measured(steps.drop_last(), k, d, i, j);
    }
}

/// Whether every cell of the measurements among the steps holds a number.
spec fn all_numbers(s: Scene, steps: Seq<StepModel>) -> bool {
    forall|c: Cell|
        0 <= c.address < s.settings.num_addresses && sweep::times_measured(
            steps,
            c.domain,
            c.ping,
            c.pong,
        ) >= 1 ==> #[trigger] s.has_number(c)
}

proof fn lemma_cells_len(s: Scene, steps: Seq<StepModel>)
    ensures
        s.cells(steps).len() <= sweep::measurements(steps) * s.settings.num_addresses,
        all_numbers(s, steps) ==> s.cells(steps).len() == sweep::measurements(steps)
            * s.settings.num_addresses,
    decreases steps.len(),
{
    let n = s.settings.num_addresses as int;
    if steps.len() > 0 {
        let d = steps.drop_last();
        lemma_cells_len(s, d);
        if all_numbers(s, steps) {
            assert(all_numbers(s, d));
            if let StepModel::Measure(x, i, j) = steps.last() {
                lemma_is_measured(steps, steps.len() - 1, x, i, j);
            }
        }
        let k = sweep::measurements(d) as int;
        assert((k + 1) * n == k * n + n) by (nonlinear_arith);
        if let StepModel::Measure(x, i, j) = steps.last() {
            lemma_pair_len(s, x, i, j, n);
        }
    } else {
        assert(0 * n == 0) by (nonlinear_arith);
    }
}

/// Whether a cell is one that a sweep over so many domains measures.
pub open spec fn is_measured(s: Scene, symmetric: bool, num_domains: int, c: Cell) -> bool {
    &&& 0 <= c.domain < num_domains
    &&& 0 <= c.ping < s.cores.len()
    &&& 0 <= c.pong < s.cores.len()
    &&& sweep::is_measured(symmetric, c.ping, c.pong)
    &&& 0 <= c.address < s.settings.num_addresses
}

/// A whole run leaves one record for each domain, measured pair and address
/// whose samples hold a number, and no other; with CSV output one row for each
/// of them. There are as many as domains, pairs and addresses make where every
/// cell holds a number, and never more.
pub proof fn law_whole_run(
    s: Scene,
    m: Arith,
    symmetric: bool,
    show_placement: bool,
    num_domains: int,
    c: Cell,
)
    requires
        0 <= num_domains,
    ensures
        ({
            let steps = sweep::sweep_steps(
                s.cores,
                symmetric,
                show_placement,
                s.placed,
                num_domains,
                num_domains,
            );
            let v = s.cells(steps);
            let after = s.tally(m, nothing(), steps);
            let most = num_domains * sweep::pair_count(symmetric, s.cores.len() as int)
                * s.settings.num_addresses;
            &&& after.records == records_of(s, m, v)
            &&& s.settings.csv ==> after.rows == rows_of(s, m, v)
            &&& times(v, c) == (if is_measured(s, symmetric, num_domains, c) && s.has_number(c) {
                1nat
            } else {
                0nat
            })
            &&& after.records.len() <= most
            &&& (forall|x: Cell|
                is_measured(s, symmetric, num_domains, x) ==> #[trigger] s.has_number(x))
                ==> after.records.len() == most
        }),
{
    let steps = sweep::sweep_steps(
        s.cores,
        symmetric,
        show_placement,
        s.placed,
        num_domains,
        num_domains,
    );
    let v = s.cells(steps);
    law_tally_of_steps(s, m, nothing(), steps);
    assert(nothing().records + records_of(s, m, v) =~= records_of(s, m, v));
    assert(nothing().rows + rows_of(s, m, v) =~= rows_of(s, m, v));
    lemma_cell_times(s, steps, c);
    lemma_cells_len(s, steps);
    if forall|x: Cell|
        is_measured(s, symmetric, num_domains, x) ==> #[trigger] s.has_number(x) {
        assert forall|x: Cell|
            0 <= x.address < s.settings.num_addresses && sweep::times_measured(
                steps,
                x.domain,
                x.ping,
                x.pong,
            ) >= 1 implies #[trigger] s.has_number(x) by {
            sweep::law_each_pair_once(
                s.cores,
                symmetric,
                show_placement,
                s.placed,
                num_domains,
                num_domains,
                x.domain,
                x.ping,
                x.pong,
            );
            assert(is_measured(s, symmetric, num_domains, x));
        }
    }
    sweep::law_each_pair_once(
        s.cores,
        symmetric,
        show_placement,
        s.placed,
        num_domains,
        num_domains,
        c.domain,
        c.ping,
        c.pong,
    );
    sweep::law_measurement_count(
        s.cores,
        symmetric,
        show_placement,
        s.placed,
        num_domains,
        num_domains,
    );
}

/// The core pair of a cell.
pub open spec fn pair_of(s: Scene, c: Cell) -> (usize, usize) {
    (s.cores[c.ping].id, s.cores[c.pong].id)
}

/// The core pair of a cell, with the node of its domain.
pub open spec fn domain_of(s: Scene, c: Cell) -> (usize, usize, i32) {
    (
        s.cores[c.ping].id,
        s.cores[c.pong].id,
        sweep::placed_at(s.placed, c.domain).node,
    )
}

/// The groups of a whole run hold exactly its cells: the records are grouped by
/// the core pairs of the cells, and by their pairs and nodes, the values in
/// the groups are the collapsed values of the cells, and both kinds of groups
/// hold as many values as there are cells.
pub proof fn law_groups_of_a_run(s: Scene, m: Arith, v: Seq<Cell>)
    ensures
        ({
            let records = records_of(s, m, v);
            let pairs = v.map_values(|c: Cell| pair_of(s, c));
            let domains = v.map_values(|c: Cell| domain_of(s, c));
            let values = v.map_values(|c: Cell| s.record(m, c).collapsed);
            &&& cells::pair_groups(m, records) == cells::group_stats(
                m,
                pairs,
                values,
                cells::first_seen(pairs),
            )
            &&& cells::domain_groups(m, records) == cells::group_stats(
                m,
                domains,
                values,
                cells::first_seen(domains),
            )
            &&& cells::total_members(pairs, values, cells::first_seen(pairs)) == v.len()
            &&& cells::total_members(domains, values, cells::first_seen(domains)) == v.len()
        }),
{
    let records = records_of(s, m, v);
    let pairs = v.map_values(|c: Cell| pair_of(s, c));
    let domains = v.map_values(|c: Cell| domain_of(s, c));
    let values = v.map_values(|c: Cell| s.record(m, c).collapsed);
    assert(cells::pair_keys(records) =~= pairs);
    assert(cells::domain_keys(records) =~= domains);
    assert(cells::values(records) =~= values);
    cells::law_groups_hold_all(pairs, values);
    cells::law_groups_hold_all(domains, values);
}

/// The durations of a run that has measured every address, and taken a sample
/// to warm up, are complete: they can be added to the tally.
pub proof fn law_run_is_complete(run: Run, settings: Settings)
    requires
        run.well_formed(),
        run.durations@.len() == run.num_addresses,
        run.num_addresses == settings.num_addresses,
        run.num_samples == settings.num_samples + 1,
        settings.num_samples >= 1,
    ensures
        sweep::complete(settings, sweep::series(run.durations@)),
        sweep::sample_count(sweep::series(run.durations@), settings.num_addresses as int)
            == settings.num_addresses * settings.num_samples,
{
    let all = sweep::series(run.durations@);
    assert forall|a: int| 0 <= a < settings.num_addresses implies (#[trigger] all[a]).len()
        == settings.num_samples + 1 by {
        assert(all[a] == run.durations@[a]@);
    }
    sweep::law_samples_counted(all, settings.num_samples as nat, settings.num_addresses as int);
}

/// Whether a value is a latency of `n` round trips or messages, whatever the
/// clock said.
pub open spec fn is_latency(m: Arith, n: u32, x: Double) -> bool {
    ||| exists|nanos: u64| x == #[trigger] timing::one_way(m, nanos, n)
    ||| exists|nanos: u64, overhead: u64| x == #[trigger] timing::per_message(m, nanos, overhead, n)
}

/// The durations of a run are numbers, not negative and not infinite, where
/// there is a round trip or a message and the arithmetic keeps to finite
/// values. So with a sample at least, every cell holds a number.
pub proof fn law_run_values(m: Arith, n: u32, durations: Seq<Seq<Double>>, a: int)
    requires
        n >= 1,
        timing::keeps_finite(m),
        0 <= a < durations.len(),
        forall|k: int| 0 <= k < durations[a].len() ==> is_latency(m, n, #[trigger] durations[a][k]),
    ensures
        forall|k: int|
            0 <= k < durations[a].len() ==> timing::finite(#[trigger] durations[a][k])
                && !durations[a][k].not_a_number(),
        durations[a].len() >= 2 ==> stats::numbers(sweep::samples(durations, a)).len() > 0,
{
    assert forall|k: int| 0 <= k < durations[a].len() implies timing::finite(
        #[trigger] durations[a][k],
    ) && !durations[a][k].not_a_number() by {
        let x = durations[a][k];
        assert(is_latency(m, n, x));
        if exists|nanos: u64| x == #[trigger] timing::one_way(m, nanos, n) {
            let nanos = choose|nanos: u64| x == #[trigger] timing::one_way(m, nanos, n);
            timing::law_latency_finite(m, nanos, 0, n);
        } else {
            let (nanos, overhead) = choose|nanos: u64, overhead: u64|
                x == #[trigger] timing::per_message(m, nanos, overhead, n);
            timing::law_latency_finite(m, nanos, overhead, n);
        }
    }
    if durations[a].len() >= 2 {
        let v = sweep::samples(durations, a);
        stats::law_numbers(v);
        assert(v[0] == durations[a][1]);
    }
}

} // verus!
