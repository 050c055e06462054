//! The sweep over memory domains and core pairs: what is measured and printed
//! in which order, and what is kept of each measurement.

use crate::cells::{CellRecord, PerAddressRow, Place};
use crate::double;
use crate::double::{Arith, Double, Notation, Op};
use crate::numa::Placed;
use crate::number;
use crate::select::CoreId;
use crate::stats;
use crate::stats::{SampleAgg, Stats};
use crate::style;
use crate::style::Tint;
use crate::text;
use std::collections::HashMap;
use vstd::prelude::*;

verus! {

// ---------------------------------------------------------------------------
// The steps of a sweep
// ---------------------------------------------------------------------------

/// One step of a sweep.
pub enum Step {
    /// Print a text.
    Print(String),
    /// Measure a core pair in a memory domain; the cores are given by their
    /// positions among the selected ones.
    Measure { domain: usize, ping: usize, pong: usize },
}

/// A step as a value.
pub enum StepModel {
    Print(Seq<char>),
    Measure(int, int, int),
}

impl Step {
    /// The step as a value.
    pub open spec fn model(self) -> StepModel {
        match self {
            Step::Print(s) => StepModel::Print(s@),
            Step::Measure { domain, ping, pong } => StepModel::Measure(
                domain as int,
                ping as int,
                pong as int,
            ),
        }
    }
}

/// The steps as values.
pub open spec fn models(v: Seq<Step>) -> Seq<StepModel> {
    v.map_values(|s: Step| s.model())
}

proof fn lemma_models_push(v: Seq<Step>, s: Step)
    ensures
        models(v.push(s)) == models(v).push(s.model()),
{
    assert(models(v.push(s)) =~= models(v).push(s.model()));
}

/// Whether the pair is measured: each unordered pair once where the benchmark
/// is symmetric, else each ordered pair of two different cores.
pub open spec fn is_measured(symmetric: bool, ping: int, pong: int) -> bool {
    if symmetric {
        pong < ping
    } else {
        pong != ping
    }
}

/// The steps for one pair: a measurement, a gap on the diagonal of a full
/// matrix, or nothing.
pub open spec fn pair_steps(symmetric: bool, domain: int, ping: int, pong: int) -> Seq<StepModel> {
    if is_measured(symmetric, ping, pong) {
        seq![StepModel::Measure(domain, ping, pong)]
    } else if !symmetric {
        seq![StepModel::Print(text::spaces(9))]
    } else {
        seq![]
    }
}

/// The steps for the first `n` pong cores of a row.
pub open spec fn row_steps(symmetric: bool, domain: int, ping: int, n: int) -> Seq<StepModel>
    decreases n,
{
    if n <= 0 {
        seq![]
    } else {
        row_steps(symmetric, domain, ping, n - 1) + pair_steps(symmetric, domain, ping, n - 1)
    }
}

/// The label of a row.
pub open spec fn row_label(core: CoreId) -> Seq<char> {
    "    "@ + text::padded_left(number::dec(core.id as nat), 3)
}

/// The steps for the first `n` rows of a domain: the label, the pairs, the end of the line.
pub open spec fn matrix_steps(cores: Seq<CoreId>, symmetric: bool, domain: int, n: int) -> Seq<
    StepModel,
>
    decreases n,
{
    if n <= 0 {
        seq![]
    } else {
        matrix_steps(cores, symmetric, domain, n - 1) + seq![
            StepModel::Print(row_label(cores[n - 1])),
        ] + row_steps(symmetric, domain, n - 1, cores.len() as int) + seq![
            StepModel::Print("\n"@),
        ]
    }
}

/// The columns of the header for the first `n` cores.
pub open spec fn columns(cores: Seq<CoreId>, n: int) -> Seq<char>
    decreases n,
{
    if n <= 0 {
        seq![]
    } else {
        columns(cores, n - 1) + " "@ + text::padded_left(number::dec(cores[n - 1].id as nat), 4)
            + "    "@
    }
}

/// The header of a matrix.
pub open spec fn header(cores: Seq<CoreId>) -> Seq<char> {
    "       "@ + columns(cores, cores.len() as int) + "\n"@
}

/// What is said of a resolved node.
pub open spec fn mem_numa_text(node: i32) -> Seq<char> {
    if node < 0 {
        "memory placement unverified"@
    } else {
        "NUMA node "@ + number::dec(node as nat)
    }
}

/// What is known of a domain; node 0 where nothing is.
pub open spec fn placed_at(placed: Seq<Placed>, domain: int) -> Placed {
    if 0 <= domain < placed.len() {
        placed[domain]
    } else {
        Placed { node: 0, spanned: false }
    }
}

/// What is said of a domain before its matrix.
pub open spec fn banner(placed: Placed, num_domains: int) -> Seq<char> {
    (if num_domains > 1 {
        "\n"@
    } else {
        ""@
    }) + "    "@ + style::painted(Tint::WhiteDimmed, "Memory domain:"@) + " "@ + mem_numa_text(
        placed.node,
    ) + "\n"@ + (if placed.spanned {
        "    "@ + style::painted(
            Tint::YellowBold,
            "WARN: this domain's shared buffer landed on more than one NUMA node (default first-touch). Latencies mix local and remote access; pass --numa <node> to pin placement."@,
        ) + "\n"@
    } else {
        ""@
    })
}

/// The steps for the first `n` domains: what is said of the domain where
/// placement is shown, the header, the matrix.
pub open spec fn sweep_steps(
    cores: Seq<CoreId>,
    symmetric: bool,
    show_placement: bool,
    placed: Seq<Placed>,
    num_domains: int,
    n: int,
) -> Seq<StepModel>
    decreases n,
{
    if n <= 0 {
        seq![]
    } else {
        sweep_steps(cores, symmetric, show_placement, placed, num_domains, n - 1) + (
        if show_placement {
            seq![StepModel::Print(banner(placed_at(placed, n - 1), num_domains))]
        } else {
            seq![]
        }) + seq![StepModel::Print(header(cores))] + matrix_steps(
            cores,
            symmetric,
            n - 1,
            cores.len() as int,
        )
    }
}

/// What is said of a resolved node.
pub fn fmt_mem_numa(node: i32) -> (r: String)
    ensures
        r@ == mem_numa_text(node),
{
    if node < 0 {
        "memory placement unverified".to_owned()
    } else {
        let mut out: String = "NUMA node ".to_owned();
        number::push_dec(&mut out, node as u64);
        out
    }
}

/// What is known of a domain; node 0 where nothing is.
pub fn domain_placed(placed: &[Placed], domain: usize) -> (r: Placed)
    ensures
        r == placed_at(placed@, domain as int),
{
    if domain < placed.len() {
        placed[domain]
    } else {
        Placed { node: 0, spanned: false }
    }
}

/// What is said of a domain before its matrix.
fn fmt_banner(placed: Placed, num_domains: usize) -> (r: String)
    ensures
        r@ == banner(placed, num_domains as int),
{
    let mut out: String = if num_domains > 1 {
        "\n".to_owned()
    } else {
        "".to_owned()
    };
    out.append("    ");
    let label: String = style::paint(Tint::WhiteDimmed, "Memory domain:");
    out.append(label.as_str());
    out.append(" ");
    let node: String = fmt_mem_numa(placed.node);
    out.append(node.as_str());
    out.append("\n");
    let mut warning: String = "".to_owned();
    if placed.spanned {
        warning = "    ".to_owned();
        let painted: String = style::paint(
            Tint::YellowBold,
            "WARN: this domain's shared buffer landed on more than one NUMA node (default first-touch). Latencies mix local and remote access; pass --numa <node> to pin placement.",
        );
        warning.append(painted.as_str());
        warning.append("\n");
    }
    out.append(warning.as_str());
    out
}

/// The header of a matrix.
fn fmt_header(cores: &[CoreId]) -> (r: String)
    ensures
        r@ == header(cores@),
{
    let mut out: String = "       ".to_owned();
    let ghost start = out@;
    let mut j: usize = 0;
    assert(out@ =~= start + columns(cores@, 0));
    while j < cores.len()
        invariant
            j <= cores@.len(),
            out@ == start + columns(cores@, j as int),
        decreases cores@.len() - j,
    {
        out.append(" ");
        let id: String = number::dec_text(cores[j].id);
        text::push_padded(&mut out, id.as_str(), 4);
        out.append("    ");
        j = j + 1;
        assert(out@ =~= start + columns(cores@, j as int));
    }
    out.append("\n");
    out
}

/// Appends the steps for one row of a matrix.
fn push_row(steps: &mut Vec<Step>, cores: &[CoreId], symmetric: bool, domain: usize, ping: usize)
    requires
        ping < cores@.len(),
    ensures
        models(final(steps)@) == models(old(steps)@) + seq![
            StepModel::Print(row_label(cores@[ping as int])),
        ] + row_steps(symmetric, domain as int, ping as int, cores@.len() as int) + seq![
            StepModel::Print("\n"@),
        ],
{
    let mut label: String = "    ".to_owned();
    let id: String = number::dec_text(cores[ping].id);
    text::push_padded(&mut label, id.as_str(), 3);
    proof {
        lemma_models_push(steps@, Step::Print(label));
    }
    steps.push(Step::Print(label));
    let ghost start = models(steps@);
    let mut pong: usize = 0;
    assert(models(steps@) =~= start + row_steps(symmetric, domain as int, ping as int, 0));
    while pong < cores.len()
        invariant
            pong <= cores@.len(),
            models(steps@) == start + row_steps(
                symmetric,
                domain as int,
                ping as int,
                pong as int,
            ),
        decreases cores@.len() - pong,
    {
        let ghost before = models(steps@);
        if (symmetric && pong < ping) || (!symmetric && pong != ping) {
            proof {
                lemma_models_push(steps@, Step::Measure { domain, ping, pong });
            }
            steps.push(Step::Measure { domain, ping, pong });
        } else if !symmetric {
            let mut gap: String = String::new();
            text::push_spaces(&mut gap, 9);
            proof {
                assert(gap@ =~= text::spaces(9));
                lemma_models_push(steps@, Step::Print(gap));
            }
            steps.push(Step::Print(gap));
        }
        pong = pong + 1;
        proof {
            assert(models(steps@) =~= before + pair_steps(
                symmetric,
                domain as int,
                ping as int,
                pong - 1,
            ));
            assert(models(steps@) =~= start + row_steps(
                symmetric,
                domain as int,
                ping as int,
                pong as int,
            ));
        }
    }
    let end: String = "\n".to_owned();
    proof {
        lemma_models_push(steps@, Step::Print(end));
    }
    let ghost before = models(steps@);
    steps.push(Step::Print(end));
    assert(models(steps@) =~= before + seq![StepModel::Print("\n"@)]);
}

/// Appends the steps for one matrix.
fn push_matrix(steps: &mut Vec<Step>, cores: &[CoreId], symmetric: bool, domain: usize)
    ensures
        models(final(steps)@) == models(old(steps)@) + matrix_steps(
            cores@,
            symmetric,
            domain as int,
            cores@.len() as int,
        ),
{
    let ghost start = models(steps@);
    let mut ping: usize = 0;
    assert(models(steps@) =~= start + matrix_steps(cores@, symmetric, domain as int, 0));
    while ping < cores.len()
        invariant
            ping <= cores@.len(),
            models(steps@) == start + matrix_steps(cores@, symmetric, domain as int, ping as int),
        decreases cores@.len() - ping,
    {
        push_row(steps, cores, symmetric, domain, ping);
        ping = ping + 1;
        assert(models(steps@) =~= start + matrix_steps(
            cores@,
            symmetric,
            domain as int,
            ping as int,
        ));
    }
}

/// The steps of a sweep, in order.
pub fn schedule(
    cores: &[CoreId],
    symmetric: bool,
    show_placement: bool,
    placed: &[Placed],
    num_domains: usize,
) -> (r: Vec<Step>)
    ensures
        models(r@) == sweep_steps(
            cores@,
            symmetric,
            show_placement,
            placed@,
            num_domains as int,
            num_domains as int,
        ),
{
    let mut steps: Vec<Step> = Vec::new();
    let mut domain: usize = 0;
    assert(models(steps@) =~= sweep_steps(
        cores@,
        symmetric,
        show_placement,
        placed@,
        num_domains as int,
        0,
    ));
    while domain < num_domains
        invariant
            domain <= num_domains,
            models(steps@) == sweep_steps(
                cores@,
                symmetric,
                show_placement,
                placed@,
                num_domains as int,
                domain as int,
            ),
        decreases num_domains - domain,
    {
        if show_placement {
            let said: String = fmt_banner(domain_placed(placed, domain), num_domains);
            proof {
                lemma_models_push(steps@, Step::Print(said));
            }
            steps.push(Step::Print(said));
        }
        let ghost before = models(steps@);
        let top: String = fmt_header(cores);
        proof {
            lemma_models_push(steps@, Step::Print(top));
        }
        steps.push(Step::Print(top));
        let ghost middle = models(steps@);
        push_matrix(&mut steps, cores, symmetric, domain);
        domain = domain + 1;
        proof {
            assert(middle =~= before + seq![StepModel::Print(header(cores@))]);
            assert(models(steps@) =~= sweep_steps(
                cores@,
                symmetric,
                show_placement,
                placed@,
                num_domains as int,
                domain as int,
            ));
        }
    }
    steps
}

// ---------------------------------------------------------------------------
// Laws of the schedule
// ---------------------------------------------------------------------------

/// How often a pair is measured in a domain.
pub open spec fn times_measured(s: Seq<StepModel>, domain: int, ping: int, pong: int) -> nat
    decreases s.len(),
{
    if s.len() == 0 {
        0
    } else {
        times_measured(s.drop_last(), domain, ping, pong) + (if s.last() == StepModel::Measure(
            domain,
            ping,
            pong,
        ) {
            1nat
        } else {
            0nat
        })
    }
}

/// How many measurements there are.
pub open spec fn measurements(s: Seq<StepModel>) -> nat
    decreases s.len(),
{
    if s.len() == 0 {
        0
    } else {
        measurements(s.drop_last()) + (if s.last() is Measure {
            1nat
        } else {
            0nat
        })
    }
}

/// How many core pairs there are: `n * (n - 1)`, or half of that where the
/// benchmark is symmetric.
pub open spec fn pair_count(symmetric: bool, n: int) -> int {
    if symmetric {
        n * (n - 1) / 2
    } else {
        n * (n - 1)
    }
}

proof fn lemma_steps_concat(a: Seq<StepModel>, b: Seq<StepModel>, d: int, i: int, j: int)
    ensures
        times_measured(a + b, d, i, j) == times_measured(a, d, i, j) + times_measured(b, d, i, j),
        measurements(a + b) == measurements(a) + measurements(b),
    decreases b.len(),
{
    if b.len() == 0 {
        assert(a + b =~= a);
    } else {
        lemma_steps_concat(a, b.drop_last(), d, i, j);
        assert((a + b).drop_last() =~= a + b.drop_last());
    }
}

proof fn lemma_one_step(m: StepModel, d: int, i: int, j: int)
    ensures
        times_measured(seq![m], d, i, j) == (if m == StepModel::Measure(d, i, j) {
            1nat
        } else {
            0nat
        }),
        measurements(seq![m]) == (if m is Measure {
            1nat
        } else {
            0nat
        }),
{
    let s = seq![m];
    assert(s.drop_last() =~= Seq::<StepModel>::empty());
    assert(times_measured(s.drop_last(), d, i, j) == 0);
    assert(measurements(s.drop_last()) == 0);
}

/// How many pairs of the first `n` of a row are measured.
spec fn row_count(symmetric: bool, ping: int, n: int) -> int {
    if n <= 0 {
        0
    } else if symmetric {
        if n <= ping {
            n
        } else {
            ping
        }
    } else if ping < n {
        n - 1
    } else {
        n
    }
}

proof fn lemma_row(symmetric: bool, domain: int, ping: int, n: int, d: int, i: int, j: int)
    requires
        0 <= ping,
    ensures
        times_measured(row_steps(symmetric, domain, ping, n), d, i, j) == (if d == domain && i
            == ping && 0 <= j < n && is_measured(symmetric, i, j) {
            1nat
        } else {
            0nat
        }),
        measurements(row_steps(symmetric, domain, ping, n)) == row_count(symmetric, ping, n),
    decreases n,
{
    if n > 0 {
        lemma_row(symmetric, domain, ping, n - 1, d, i, j);
        let a = row_steps(symmetric, domain, ping, n - 1);
        let b = pair_steps(symmetric, domain, ping, n - 1);
        lemma_steps_concat(a, b, d, i, j);
        lemma_one_step(StepModel::Measure(domain, ping, n - 1), d, i, j);
        lemma_one_step(StepModel::Print(text::spaces(9)), d, i, j);
    }
}

/// How many pairs of the first `n` rows are measured.
spec fn rows_count(symmetric: bool, cols: int, n: int) -> int
    decreases n,
{
    if n <= 0 {
        0
    } else {
        rows_count(symmetric, cols, n - 1) + row_count(symmetric, n - 1, cols)
    }
}

proof fn lemma_matrix(
    cores: Seq<CoreId>,
    symmetric: bool,
    domain: int,
    n: int,
    d: int,
    i: int,
    j: int,
)
    requires
        0 <= n <= cores.len(),
    ensures
        times_measured(matrix_steps(cores, symmetric, domain, n), d, i, j) == (if d == domain && 0
            <= i < n && 0 <= j < cores.len() && is_measured(symmetric, i, j) {
            1nat
        } else {
            0nat
        }),
        measurements(matrix_steps(cores, symmetric, domain, n)) == rows_count(
            symmetric,
            cores.len() as int,
            n,
        ),
    decreases n,
{
    if n > 0 {
        lemma_matrix(cores, symmetric, domain, n - 1, d, i, j);
        lemma_row(symmetric, domain, n - 1, cores.len() as int, d, i, j);
        let a = matrix_steps(cores, symmetric, domain, n - 1);
        let label = StepModel::Print(row_label(cores[n - 1]));
        let row = row_steps(symmetric, domain, n - 1, cores.len() as int);
        let end = StepModel::Print("\n"@);
        lemma_steps_concat(a, seq![label], d, i, j);
        lemma_steps_concat(a + seq![label], row, d, i, j);
        lemma_steps_concat(a + seq![label] + row, seq![end], d, i, j);
        lemma_one_step(label, d, i, j);
        lemma_one_step(end, d, i, j);
    }
}

/// A sweep measures each pair that is to be measured once in each domain, and
/// nothing else: each unordered pair where the benchmark is symmetric, each
/// ordered pair of two different cores where it is not.
pub proof fn law_each_pair_once(
    cores: Seq<CoreId>,
    symmetric: bool,
    show_placement: bool,
    placed: Seq<Placed>,
    num_domains: int,
    n: int,
    d: int,
    i: int,
    j: int,
)
    requires
        0 <= n,
    ensures
        times_measured(
            sweep_steps(cores, symmetric, show_placement, placed, num_domains, n),
            d,
            i,
            j,
        ) == (if 0 <= d < n && 0 <= i < cores.len() && 0 <= j < cores.len() && is_measured(
            symmetric,
            i,
            j,
        ) {
            1nat
        } else {
            0nat
        }),
    decreases n,
{
    if n > 0 {
        law_each_pair_once(
            cores,
            symmetric,
            show_placement,
            placed,
            num_domains,
            n - 1,
            d,
            i,
            j,
        );
        lemma_domain(cores, symmetric, show_placement, placed, num_domains, n, d, i, j);
    }
}

/// What one more domain adds to a sweep.
proof fn lemma_domain(
    cores: Seq<CoreId>,
    symmetric: bool,
    show_placement: bool,
    placed: Seq<Placed>,
    num_domains: int,
    n: int,
    d: int,
    i: int,
    j: int,
)
    requires
        0 < n,
    ensures
        ({
            let before = sweep_steps(cores, symmetric, show_placement, placed, num_domains, n - 1);
            let after = sweep_steps(cores, symmetric, show_placement, placed, num_domains, n);
            &&& times_measured(after, d, i, j) == times_measured(before, d, i, j) + (if d == n - 1
                && 0 <= i < cores.len() && 0 <= j < cores.len() && is_measured(symmetric, i, j) {
                1nat
            } else {
                0nat
            })
            &&& measurements(after) == measurements(before) + rows_count(
                symmetric,
                cores.len() as int,
                cores.len() as int,
            )
        }),
{
    let a = sweep_steps(cores, symmetric, show_placement, placed, num_domains, n - 1);
    let said = StepModel::Print(banner(placed_at(placed, n - 1), num_domains));
    let b = if show_placement {
        seq![said]
    } else {
        seq![]
    };
    let top = StepModel::Print(header(cores));
    let m = matrix_steps(cores, symmetric, n - 1, cores.len() as int);
    lemma_one_step(said, d, i, j);
    lemma_one_step(top, d, i, j);
    lemma_matrix(cores, symmetric, n - 1, cores.len() as int, d, i, j);
    lemma_steps_concat(a, b, d, i, j);
    lemma_steps_concat(a + b, seq![top], d, i, j);
    lemma_steps_concat(a + b + seq![top], m, d, i, j);
}

proof fn lemma_rows_count(symmetric: bool, cols: int, n: int)
    requires
        0 <= n <= cols,
    ensures
        symmetric ==> 2 * rows_count(symmetric, cols, n) == n * (n - 1),
        !symmetric ==> rows_count(symmetric, cols, n) == n * (cols - 1),
    decreases n,
{
    if n > 0 {
        lemma_rows_count(symmetric, cols, n - 1);
        assert(n * (n - 1) == (n - 1) * (n - 1 - 1) + 2 * (n - 1)) by (nonlinear_arith);
        assert(n * (cols - 1) == (n - 1) * (cols - 1) + (cols - 1)) by (nonlinear_arith);
    } else {
        assert(n * (n - 1) == 0) by (nonlinear_arith)
            requires
                n == 0,
        ;
        assert(n * (cols - 1) == 0) by (nonlinear_arith)
            requires
                n == 0,
        ;
    }
}

/// A sweep makes as many measurements as there are core pairs, in each domain.
pub proof fn law_measurement_count(
    cores: Seq<CoreId>,
    symmetric: bool,
    show_placement: bool,
    placed: Seq<Placed>,
    num_domains: int,
    n: int,
)
    requires
        0 <= n,
    ensures
        measurements(sweep_steps(cores, symmetric, show_placement, placed, num_domains, n)) == n
            * pair_count(symmetric, cores.len() as int),
    decreases n,
{
    let c = cores.len() as int;
    let p = pair_count(symmetric, c);
    if n > 0 {
        law_measurement_count(cores, symmetric, show_placement, placed, num_domains, n - 1);
        lemma_domain(cores, symmetric, show_placement, placed, num_domains, n, 0, 0, 0);
        lemma_rows_count(symmetric, c, c);
        assert(rows_count(symmetric, c, c) == p);
        assert(n * p == (n - 1) * p + p) by (nonlinear_arith);
    } else {
        assert(n * p == 0) by (nonlinear_arith)
            requires
                n == 0,
        ;
    }
}

// ---------------------------------------------------------------------------
// What is kept of a measurement
// ---------------------------------------------------------------------------

/// The node of a core; 0 where it is not known.
pub open spec fn node_of(core_numa: Map<usize, i32>, core: usize) -> i32 {
    if core_numa.contains_key(core) {
        core_numa[core]
    } else {
        0
    }
}

/// The node of a core; 0 where it is not known.
pub fn core_node(core_numa: &HashMap<usize, i32>, core: usize) -> (r: i32)
    ensures
        r == node_of(core_numa@, core),
{
    broadcast use vstd::std_specs::hash::group_hash_axioms;

    match core_numa.get(&core) {
        Some(node) => *node,
        None => 0,
    }
}

/// The place of a measurement.
pub open spec fn place_of(
    core_numa: Map<usize, i32>,
    placed: Seq<Placed>,
    domain: int,
    ping: CoreId,
    pong: CoreId,
) -> Place {
    Place {
        ping_core: ping.id,
        pong_core: pong.id,
        ping_numa: node_of(core_numa, ping.id),
        pong_numa: node_of(core_numa, pong.id),
        mem_numa: placed_at(placed, domain).node,
    }
}

/// The place of a measurement.
pub fn place(
    core_numa: &HashMap<usize, i32>,
    placed: &[Placed],
    domain: usize,
    ping: CoreId,
    pong: CoreId,
) -> (r: Place)
    ensures
        r == place_of(core_numa@, placed@, domain as int, ping, pong),
{
    Place {
        ping_core: ping.id,
        pong_core: pong.id,
        ping_numa: core_node(core_numa, ping.id),
        pong_numa: core_node(core_numa, pong.id),
        mem_numa: domain_placed(placed, domain).node,
    }
}

/// The settings of a run that bear on what is kept.
#[derive(Clone, Copy, Debug, PartialEq, Eq, Structural)]
pub struct Settings {
    pub num_addresses: usize,
    pub num_samples: u32,
    pub sample_agg: SampleAgg,
    pub csv: bool,
}

/// What a run has measured so far.
pub struct Tally {
    /// The sum of all samples.
    pub sum: Double,
    /// The number of all samples.
    pub count: u64,
    /// One record per measured cell.
    pub records: Vec<CellRecord>,
    /// One row per measured cell, where CSV output is requested.
    pub rows: Vec<PerAddressRow>,
}

/// What a run has measured so far, as a value.
pub struct TallyModel {
    pub sum: Double,
    pub count: int,
    pub records: Seq<CellRecord>,
    pub rows: Seq<PerAddressRow>,
}

impl View for Tally {
    type V = TallyModel;

    open spec fn view(&self) -> TallyModel {
        TallyModel {
            sum: self.sum,
            count: self.count as int,
            records: self.records@,
            rows: self.rows@,
        }
    }
}

/// The measured durations, as sequences.
pub open spec fn series(durations: Seq<Vec<Double>>) -> Seq<Seq<Double>> {
    durations.map_values(|v: Vec<Double>| v@)
}

/// The samples of an address: its durations without the first, which warms up.
pub open spec fn samples(durations: Seq<Seq<Double>>, address: int) -> Seq<Double> {
    durations[address].skip(1)
}

/// A sum with the values added, one after the other.
pub open spec fn summed(m: Arith, sum: Double, v: Seq<Double>) -> Double
    decreases v.len(),
{
    if v.len() == 0 {
        sum
    } else {
        m(Op::Sum, seq![summed(m, sum, v.drop_last()), v.last()])
    }
}

/// The virtual address of an address; 0 where it is not known.
pub open spec fn vaddr_at(vaddrs: Seq<usize>, address: int) -> usize {
    if 0 <= address < vaddrs.len() {
        vaddrs[address]
    } else {
        0
    }
}

/// The tally with the samples of one cell added. A cell none of whose samples
/// is a number leaves no record and no row.
pub open spec fn cell_added(
    m: Arith,
    t: TallyModel,
    settings: Settings,
    place: Place,
    address: usize,
    vaddr: usize,
    samples: Seq<Double>,
) -> TallyModel {
    let sum = summed(m, t.sum, samples);
    let count = t.count + samples.len();
    match stats::stats_of(m, samples) {
        Some(stats) => TallyModel {
            sum,
            count,
            records: t.records.push(
                CellRecord { place, collapsed: settings.sample_agg.picked(stats) },
            ),
            rows: if settings.csv {
                t.rows.push(PerAddressRow { place, address, vaddr, stats })
            } else {
                t.rows
            },
        },
        None => TallyModel { sum, count, records: t.records, rows: t.rows },
    }
}

/// The tally with the cells of the first `n` addresses added.
pub open spec fn cells_added(
    m: Arith,
    t: TallyModel,
    settings: Settings,
    place: Place,
    vaddrs: Seq<usize>,
    durations: Seq<Seq<Double>>,
    n: int,
) -> TallyModel
    decreases n,
{
    if n <= 0 {
        t
    } else {
        cell_added(
            m,
            cells_added(m, t, settings, place, vaddrs, durations, n - 1),
            settings,
            place,
            (n - 1) as usize,
            vaddr_at(vaddrs, n - 1),
            samples(durations, n - 1),
        )
    }
}

/// The number of samples of the first `n` addresses.
pub open spec fn sample_count(durations: Seq<Seq<Double>>, n: int) -> int
    decreases n,
{
    if n <= 0 {
        0
    } else {
        sample_count(durations, n - 1) + samples(durations, n - 1).len()
    }
}

/// The averages with the samples of one address added, each divided by the
/// number of addresses.
pub open spec fn shares_added(
    m: Arith,
    averages: Seq<Double>,
    samples: Seq<Double>,
    num_addresses: usize,
) -> Seq<Double> {
    let n = m(Op::Count(num_addresses as u64), seq![]);
    Seq::new(
        averages.len(),
        |s: int|
            if s < samples.len() {
                m(Op::Sum,
                    seq![averages[s], m(Op::Quotient, seq![samples[s], n])],
                )
            } else {
                averages[s]
            },
    )
}

/// The samples of the pair, averaged over the first `n` addresses.
pub open spec fn averaged(
    m: Arith,
    settings: Settings,
    durations: Seq<Seq<Double>>,
    n: int,
) -> Seq<Double>
    decreases n,
{
    if n <= 0 {
        Seq::new(settings.num_samples as nat, |s: int| double::zero())
    } else {
        shares_added(
            m,
            averaged(m, settings, durations, n - 1),
            samples(durations, n - 1),
            settings.num_addresses,
        )
    }
}

/// A deviation, at most 99. What is not a number counts as 99.
pub open spec fn capped(deviation: Double) -> Double {
    if deviation.not_a_number() || (Double { bits: double::NINETY_NINE }).less(deviation) {
        Double { bits: double::NINETY_NINE }
    } else {
        deviation
    }
}

/// The entry of a pair in the matrix: the mean of its averaged samples, and
/// their deviation divided by the root of their number.
pub open spec fn entry(
    m: Arith,
    w: Notation,
    averages: Seq<Double>,
    num_samples: u32,
) -> Seq<char> {
    let mean = m(Op::Mean, averages);
    let error = m(Op::Quotient,
        seq![
            capped(m(Op::StdDev, averages)),
            m(Op::Root,
                seq![m(Op::Count(num_samples as u64), seq![])],
            ),
        ],
    );
    " "@ + style::painted(Tint::WhiteBold, text::padded_left(w(0, mean), 4))
        + style::painted(
        Tint::WhiteDimmed,
        "+-"@ + text::padded_right(w(0, error), 2),
    )
}

/// Whether there are durations for every address: the one that warms up, and
/// no more samples than asked for.
pub open spec fn complete(settings: Settings, durations: Seq<Seq<Double>>) -> bool {
    &&& settings.num_samples >= 1
    &&& durations.len() >= settings.num_addresses
    &&& forall|a: int|
        0 <= a < settings.num_addresses ==> 1 <= (#[trigger] durations[a]).len()
            <= settings.num_samples + 1
}

/// Adds the values to a sum, one after the other.
fn add_all<F: Fn(Op, &[Double]) -> Double>(f: &F, sum: Double, v: &[Double]) -> (r: Double)
    requires
        double::answers(*f),
    ensures
        forall|m: Arith| #[trigger] double::describes(m, *f) ==> r == summed(m, sum, v@),
{
    let mut r: Double = sum;
    let mut i: usize = 0;
    while i < v.len()
        invariant
            i <= v@.len(),
            double::answers(*f),
            forall|m: Arith| #[trigger]
                double::describes(m, *f) ==> r == summed(m, sum, v@.take(i as int)),
        decreases v@.len() - i,
    {
        assert(v@.take(i + 1).drop_last() == v@.take(i as int));
        r = double::apply(f, Op::Sum, r, v[i]);
        i = i + 1;
    }
    assert(v@.take(i as int) == v@);
    r
}

/// Adds the samples of one address to the averages, each divided by the number
/// of addresses.
fn add_shares<F: Fn(Op, &[Double]) -> Double>(
    f: &F,
    averages: &mut Vec<Double>,
    samples: &[Double],
    num_addresses: usize,
)
    requires
        double::answers(*f),
        samples@.len() <= old(averages)@.len(),
    ensures
        final(averages)@.len() == old(averages)@.len(),
        forall|m: Arith| #[trigger]
            double::describes(m, *f) ==> final(averages)@ == shares_added(
                m,
                old(averages)@,
                samples@,
                num_addresses,
            ),
{
    let ghost start = averages@;
    let n: Double = double::count(f, num_addresses as u64);
    let mut s: usize = 0;
    while s < samples.len()
        invariant
            s <= samples@.len() <= averages@.len(),
            averages@.len() == start.len(),
            double::answers(*f),
            forall|m: Arith| #[trigger]
                double::describes(m, *f) ==> n == m(Op::Count(num_addresses as u64), seq![]),
            forall|m: Arith, k: int|
                #[trigger] double::describes(m, *f) && 0 <= k < s ==> #[trigger] averages@[k]
                    == shares_added(m, start, samples@, num_addresses)[k],
            forall|k: int| s <= k < start.len() ==> #[trigger] averages@[k] == start[k],
        decreases samples@.len() - s,
    {
        let share: Double = double::apply(f, Op::Quotient, samples[s], n);
        let grown: Double = double::apply(f, Op::Sum, averages[s], share);
        averages.set(s, grown);
        s = s + 1;
    }
    assert forall|m: Arith| #[trigger] double::describes(m, *f) implies averages@ == shares_added(
        m,
        start,
        samples@,
        num_addresses,
    ) by {
        assert(averages@ =~= shares_added(m, start, samples@, num_addresses));
    }
}

/// A deviation, at most 99.
fn cap(deviation: Double) -> (r: Double)
    ensures
        r == capped(deviation),
{
    let most: Double = Double { bits: double::NINETY_NINE };
    if deviation.is_nan() || most.lt(deviation) {
        most
    } else {
        deviation
    }
}

/// The entry of a pair in the matrix.
pub fn fmt_entry<F: Fn(Op, &[Double]) -> Double, G: Fn(u8, Double) -> String>(
    f: &F,
    g: &G,
    averages: &[Double],
    num_samples: u32,
) -> (r: String)
    requires
        double::answers(*f),
        double::writes(*g),
        averages@.len() > 0,
    ensures
        forall|m: Arith, w: Notation|
            #[trigger] double::describes(m, *f) && #[trigger] double::spells(w, *g) ==> r@ == entry(
                m,
                w,
                averages@,
                num_samples,
            ),
{
    let mean: Double = double::evaluate(f, Op::Mean, averages);
    let deviation: Double = double::evaluate(f, Op::StdDev, averages);
    let root: Double = double::root(f, double::count(f, num_samples as u64));
    let error: Double = double::apply(f, Op::Quotient, cap(deviation), root);
    let shown: String = double::write_double(g, 0, mean);
    let mut first: String = String::new();
    text::push_padded(&mut first, shown.as_str(), 4);
    assert(first@ =~= text::padded_left(shown@, 4));
    let mut second: String = "+-".to_owned();
    let shown: String = double::write_double(g, 0, error);
    text::push_padded_right(&mut second, shown.as_str(), 2);
    let mut out: String = " ".to_owned();
    let first: String = style::paint(Tint::WhiteBold, first.as_str());
    out.append(first.as_str());
    let second: String = style::paint(Tint::WhiteDimmed, second.as_str());
    out.append(second.as_str());
    out
}

impl Tally {
    /// A tally of nothing.
    pub fn new() -> (r: Tally)
        ensures
            r@ == (TallyModel {
                sum: double::zero(),
                count: 0,
                records: seq![],
                rows: seq![],
            }),
    {
        let r: Tally = Tally {
            sum: Double { bits: 0 },
            count: 0,
            records: Vec::new(),
            rows: Vec::new(),
        };
        assert(r.records@ =~= seq![]);
        assert(r.rows@ =~= seq![]);
        r
    }

    /// Adds the samples of one cell.
    pub fn add_cell<F: Fn(Op, &[Double]) -> Double>(
        &mut self,
        f: &F,
        settings: Settings,
        place: Place,
        address: usize,
        vaddr: usize,
        samples: &[Double],
    )
        requires
            double::answers(*f),
            old(self).count + samples@.len() <= u64::MAX,
        ensures
            final(self).count == old(self).count + samples@.len(),
            stats::numbers(samples@).len() == 0 ==> final(self).records@ == old(self).records@
                && final(self).rows@ == old(self).rows@,
            stats::numbers(samples@).len() > 0 ==> exists|s: Stats| #[trigger]
                stats::holds_of(s, samples@) && final(self).records@ == old(self).records@.push(
                    CellRecord { place, collapsed: settings.sample_agg.picked(s) },
                ) && final(self).rows@ == (if settings.csv {
                    old(self).rows@.push(PerAddressRow { place, address, vaddr, stats: s })
                } else {
                    old(self).rows@
                }),
            forall|m: Arith| #[trigger]
                double::describes(m, *f) ==> final(self)@ == cell_added(
                    m,
                    old(self)@,
                    settings,
                    place,
                    address,
                    vaddr,
                    samples@,
                ),
    {
        self.sum = add_all(f, self.sum, samples);
        self.count = self.count + samples.len() as u64;
        if let Some(stats) = Stats::compute(f, samples) {
            let collapsed: Double = settings.sample_agg.collapse(&stats);
            self.records.push(CellRecord { place, collapsed });
            if settings.csv {
                self.rows.push(PerAddressRow { place, address, vaddr, stats });
            }
        }
    }

    /// Adds the durations of one core pair, and gives its entry in the matrix.
    pub fn add_pair<F: Fn(Op, &[Double]) -> Double, G: Fn(u8, Double) -> String>(
        &mut self,
        f: &F,
        g: &G,
        settings: Settings,
        place: Place,
        vaddrs: &[usize],
        durations: &[Vec<Double>],
    ) -> (r: String)
        requires
            double::answers(*f),
            double::writes(*g),
            complete(settings, series(durations@)),
            old(self).count + sample_count(series(durations@), settings.num_addresses as int)
                <= u64::MAX,
        ensures
            final(self).count == old(self).count + sample_count(
                series(durations@),
                settings.num_addresses as int,
            ),
            forall|m: Arith| #[trigger]
                double::describes(m, *f) ==> final(self)@ == cells_added(
                    m,
                    old(self)@,
                    settings,
                    place,
                    vaddrs@,
                    series(durations@),
                    settings.num_addresses as int,
                ),
            forall|m: Arith, w: Notation|
                #[trigger] double::describes(m, *f) && #[trigger] double::spells(w, *g) ==> r@
                    == entry(
                    m,
                    w,
                    averaged(m, settings, series(durations@), settings.num_addresses as int),
                    settings.num_samples,
                ),
    {
        let ghost all = series(durations@);
        let ghost start = self@;
        let mut averages: Vec<Double> = Vec::new();
        let mut s: u32 = 0;
        while s < settings.num_samples
            invariant
                s <= settings.num_samples,
                averages@ == Seq::new(s as nat, |k: int| double::zero()),
            decreases settings.num_samples - s,
        {
            averages.push(Double { bits: 0 });
            s = s + 1;
            assert(averages@ =~= Seq::new(s as nat, |k: int| double::zero()));
        }
        let mut a: usize = 0;
        while a < settings.num_addresses
            invariant
                a <= settings.num_addresses,
                double::answers(*f),
                all == series(durations@),
                complete(settings, all),
                start.count + sample_count(all, settings.num_addresses as int) <= u64::MAX,
                self@.count == start.count + sample_count(all, a as int),
                forall|m: Arith| #[trigger]
                    double::describes(m, *f) ==> self@ == cells_added(
                        m,
                        start,
                        settings,
                        place,
                        vaddrs@,
                        all,
                        a as int,
                    ),
                forall|m: Arith| #[trigger]
                    double::describes(m, *f) ==> averages@ == averaged(
                        m,
                        settings,
                        all,
                        a as int,
                    ),
                averages@.len() == settings.num_samples,
            decreases settings.num_addresses - a,
        {
            proof {
                assert(all[a as int] == durations@[a as int]@);
                lemma_sample_count(all, a + 1, settings.num_addresses as int);
            }
            let n: usize = durations[a].len();
            let kept: &[Double] = vstd::slice::slice_subrange(durations[a].as_slice(), 1, n);
            assert(kept@ =~= samples(all, a as int));
            add_shares(f, &mut averages, kept, settings.num_addresses);
            let vaddr: usize = if a < vaddrs.len() {
                vaddrs[a]
            } else {
                0
            };
            self.add_cell(f, settings, place, a, vaddr, kept);
            a = a + 1;
        }
        fmt_entry(f, g, averages.as_slice(), settings.num_samples)
    }
}

/// More addresses have no fewer samples.
proof fn lemma_sample_count(durations: Seq<Seq<Double>>, a: int, n: int)
    requires
        a <= n,
    ensures
        sample_count(durations, a) <= sample_count(durations, n),
    decreases n - a,
{
    if a < n {
        lemma_sample_count(durations, a, n - 1);
    }
}

// ---------------------------------------------------------------------------
// Laws of the tally
// ---------------------------------------------------------------------------

/// With CSV output, each record has a row of the same place, and its collapsed
/// value is the mean or the median that the row shows, as asked for.
pub open spec fn rows_match(t: TallyModel, agg: SampleAgg) -> bool {
    &&& t.rows.len() == t.records.len()
    &&& forall|i: int|
        0 <= i < t.records.len() ==> {
            &&& (#[trigger] t.records[i]).place == t.rows[i].place
            &&& t.records[i].collapsed == agg.picked(t.rows[i].stats)
        }
}

/// With CSV output, adding a pair keeps the records and the rows matched.
pub proof fn law_rows_match(
    m: Arith,
    t: TallyModel,
    settings: Settings,
    place: Place,
    vaddrs: Seq<usize>,
    durations: Seq<Seq<Double>>,
    n: int,
)
    requires
        settings.csv,
        rows_match(t, settings.sample_agg),
    ensures
        rows_match(
            cells_added(m, t, settings, place, vaddrs, durations, n),
            settings.sample_agg,
        ),
    decreases n,
{
    if n > 0 {
        law_rows_match(m, t, settings, place, vaddrs, durations, n - 1);
        let before = cells_added(m, t, settings, place, vaddrs, durations, n - 1);
        let after = cells_added(m, t, settings, place, vaddrs, durations, n);
        assert forall|i: int| 0 <= i < after.records.len() implies {
            &&& (#[trigger] after.records[i]).place == after.rows[i].place
            &&& after.records[i].collapsed == settings.sample_agg.picked(after.rows[i].stats)
        } by {
            if i < before.records.len() {
                assert(before.records[i] == after.records[i]);
                assert(before.rows[i] == after.rows[i]);
            }
        }
    }
}

/// Adding a pair counts every sample once, and keeps what was there before.
pub proof fn law_tally_grows(
    m: Arith,
    t: TallyModel,
    settings: Settings,
    place: Place,
    vaddrs: Seq<usize>,
    durations: Seq<Seq<Double>>,
    n: int,
)
    requires
        0 <= n,
    ensures
        ({
            let after = cells_added(m, t, settings, place, vaddrs, durations, n);
            &&& after.count == t.count + sample_count(durations, n)
            &&& t.records.is_prefix_of(after.records)
            &&& t.rows.is_prefix_of(after.rows)
            &&& after.records.len() <= t.records.len() + n
            &&& forall|i: int|
                t.records.len() <= i < after.records.len() ==> (#[trigger] after.records[i]).place
                    == place
        }),
    decreases n,
{
    if n > 0 {
        law_tally_grows(m, t, settings, place, vaddrs, durations, n - 1);
        let before = cells_added(m, t, settings, place, vaddrs, durations, n - 1);
        let after = cells_added(m, t, settings, place, vaddrs, durations, n);
        assert forall|i: int| t.records.len() <= i < after.records.len() implies (
        #[trigger] after.records[i]).place == place by {
            if i < before.records.len() {
                assert(before.records[i] == after.records[i]);
            }
        }
        assert(after.records.subrange(0, t.records.len() as int) =~= t.records);
        assert(after.rows.subrange(0, t.rows.len() as int) =~= t.rows);
    }
}

/// Where every address was measured as often as asked for, and once to warm
/// up, each of them adds as many samples as asked for.
pub proof fn law_samples_counted(durations: Seq<Seq<Double>>, num_samples: nat, n: int)
    requires
        0 <= n <= durations.len(),
        forall|a: int| 0 <= a < n ==> (#[trigger] durations[a]).len() == num_samples + 1,
    ensures
        sample_count(durations, n) == n * num_samples,
    decreases n,
{
    if n > 0 {
        law_samples_counted(durations, num_samples, n - 1);
        assert(durations[n - 1].len() == num_samples + 1);
        assert((n - 1) * num_samples + num_samples == n * num_samples) by (nonlinear_arith);
    } else {
        assert(n * num_samples == 0) by (nonlinear_arith)
            requires
                n == 0,
        ;
    }
}

/// What the rows show does not depend on how cells are collapsed: two runs
/// that measure the same and differ in that alone have the same rows.
pub proof fn law_rows_ignore_collapsing(
    m: Arith,
    a: TallyModel,
    b: TallyModel,
    settings: Settings,
    agg: SampleAgg,
    place: Place,
    vaddrs: Seq<usize>,
    durations: Seq<Seq<Double>>,
    n: int,
)
    requires
        a.rows == b.rows,
    ensures
        cells_added(m, a, settings, place, vaddrs, durations, n).rows == cells_added(
            m,
            b,
            Settings { sample_agg: agg, ..settings },
            place,
            vaddrs,
            durations,
            n,
        ).rows,
    decreases n,
{
    if n > 0 {
        law_rows_ignore_collapsing(
            m,
            a,
            b,
            settings,
            agg,
            place,
            vaddrs,
            durations,
            n - 1,
        );
    }
}

/// The samples of an address are its durations from the second on.
pub proof fn law_samples(durations: Seq<Seq<Double>>, address: int)
    requires
        durations[address].len() >= 1,
    ensures
        samples(durations, address).len() == durations[address].len() - 1,
        forall|k: int|
            0 <= k < durations[address].len() - 1 ==> #[trigger] samples(durations, address)[k]
                == durations[address][k + 1],
{
}

/// The durations of the first `n` addresses without the first of each, one
/// address after the other.
pub open spec fn all_samples(durations: Seq<Seq<Double>>, n: int) -> Seq<Double> {
    Seq::new(
        n as nat,
        |a: int| durations[a].subrange(1, durations[a].len() as int),
    ).flatten()
}

/// Adding one value to a sum.
pub open spec fn adding(m: Arith) -> spec_fn(Double, Double) -> Double {
    |sum: Double, x: Double| m(Op::Sum, seq![sum, x])
}

proof fn lemma_all_samples(durations: Seq<Seq<Double>>, n: int)
    requires
        0 < n,
    ensures
        all_samples(durations, n) == all_samples(durations, n - 1) + durations[n - 1].subrange(
            1,
            durations[n - 1].len() as int,
        ),
{
    let rest = |a: int| durations[a].subrange(1, durations[a].len() as int);
    let before = Seq::new((n - 1) as nat, rest);
    assert(Seq::new(n as nat, rest) =~= before.push(rest(n - 1)));
    before.lemma_flatten_push(rest(n - 1));
    assert(all_samples(durations, n) == Seq::new(n as nat, rest).flatten());
    assert(all_samples(durations, n - 1) == before.flatten());
}

proof fn lemma_summed(m: Arith, sum: Double, v: Seq<Double>)
    ensures
        summed(m, sum, v) == v.fold_left(sum, adding(m)),
    decreases v.len(),
{
    if v.len() > 0 {
        lemma_summed(m, sum, v.drop_last());
    }
}

/// Adding values to a sum in two portions is adding them all.
pub proof fn lemma_added_in_turn(m: Arith, sum: Double, a: Seq<Double>, b: Seq<Double>)
    ensures
        (a + b).fold_left(sum, adding(m)) == b.fold_left(
            a.fold_left(sum, adding(m)),
            adding(m),
        ),
{
    let k = a.len() as int;
    (a + b).lemma_fold_left_split(sum, adding(m), k);
    assert((a + b).subrange(0, k) =~= a);
    assert((a + b).subrange(k, (a + b).len() as int) =~= b);
}

/// Adding a pair adds to the sum every sample of every address, one after the
/// other, and counts just these.
pub proof fn law_every_sample_added(
    m: Arith,
    t: TallyModel,
    settings: Settings,
    place: Place,
    vaddrs: Seq<usize>,
    durations: Seq<Seq<Double>>,
    n: int,
)
    requires
        0 <= n,
    ensures
        cells_added(m, t, settings, place, vaddrs, durations, n).sum == all_samples(
            durations,
            n,
        ).fold_left(t.sum, adding(m)),
        cells_added(m, t, settings, place, vaddrs, durations, n).count == t.count + all_samples(
            durations,
            n,
        ).len(),
        sample_count(durations, n) == all_samples(durations, n).len(),
    decreases n,
{
    if n > 0 {
        law_every_sample_added(m, t, settings, place, vaddrs, durations, n - 1);
        lemma_all_samples(durations, n);
        let before = cells_added(m, t, settings, place, vaddrs, durations, n - 1);
        let v = samples(durations, n - 1);
        lemma_summed(m, before.sum, v);
        lemma_added_in_turn(m, t.sum, all_samples(durations, n - 1), v);
    } else {
        let none = Seq::new(0, |a: int| durations[a].subrange(1, durations[a].len() as int));
        assert(all_samples(durations, n) == none.flatten());
        assert(none.flatten().len() == 0);
    }
}

/// Adding the share of one address to an average.
pub open spec fn adding_share(m: Arith, num_addresses: usize) -> spec_fn(
    Double,
    Double,
) -> Double {
    |sum: Double, x: Double|
        m(
            Op::Sum,
            seq![
                sum,
                m(Op::Quotient, seq![x, m(Op::Count(num_addresses as u64), seq![])]),
            ],
        )
}

/// An averaged sample is made of the samples at the same position of all
/// addresses: from 0, the share of each address is added in turn.
pub proof fn law_average(
    m: Arith,
    settings: Settings,
    durations: Seq<Seq<Double>>,
    n: int,
    s: int,
)
    requires
        0 <= n,
        0 <= s < settings.num_samples,
        forall|a: int| 0 <= a < n ==> (#[trigger] durations[a]).len() > s + 1,
    ensures
        averaged(m, settings, durations, n).len() == settings.num_samples,
        averaged(m, settings, durations, n)[s] == Seq::new(
            n as nat,
            |a: int| durations[a][s + 1],
        ).fold_left(Double { bits: 0 }, adding_share(m, settings.num_addresses)),
    decreases n,
{
    let at = |a: int| durations[a][s + 1];
    let all = Seq::new(n as nat, at);
    if n > 0 {
        law_average(m, settings, durations, n - 1, s);
        let before = Seq::new((n - 1) as nat, at);
        assert(Seq::new((n - 1) as nat, |a: int| durations[a][s + 1]) =~= before);
        assert(all.drop_last() =~= before);
        assert(durations[n - 1].len() > s + 1);
        assert(samples(durations, n - 1)[s] == durations[n - 1][s + 1]);
        assert(all.last() == durations[n - 1][s + 1]);
    }
    assert(Seq::new(n as nat, |a: int| durations[a][s + 1]) =~= all);
}

/// A deviation is shown as it is where it is at most 99; every other, and what
/// is not a number, is shown as 99.
pub proof fn law_capped(deviation: Double)
    ensures
        !capped(deviation).not_a_number(),
        !(Double { bits: 0x4058_c000_0000_0000 }).less(capped(deviation)),
        !deviation.not_a_number() && !(Double { bits: 0x4058_c000_0000_0000 }).less(deviation)
            ==> capped(deviation) == deviation,
        (Double { bits: 0x4058_c000_0000_0000 }).less(deviation) || deviation.not_a_number()
            ==> capped(deviation) == (Double { bits: 0x4058_c000_0000_0000 }),
{
}

/// The entry of a pair shows the mean, in four columns, and after `+-`, in two,
/// the deviation divided by the root of the number of samples.
pub proof fn law_entry(m: Arith, w: Notation, averages: Seq<Double>, num_samples: u32)
    ensures
        entry(m, w, averages, num_samples) == " \u{1b}[1;37m"@ + text::padded_left(
            w(0, m(Op::Mean, averages)),
            4,
        ) + "\u{1b}[0m\u{1b}[2;37m+-"@ + text::padded_right(
            w(
                0,
                m(
                    Op::Quotient,
                    seq![
                        capped(m(Op::StdDev, averages)),
                        m(Op::Root, seq![m(Op::Count(num_samples as u64), seq![])]),
                    ],
                ),
            ),
            2,
        ) + "\u{1b}[0m"@,
{
    reveal_strlit(" \u{1b}[1;37m");
    reveal_strlit(" ");
    reveal_strlit("\u{1b}[1;37m");
    reveal_strlit("\u{1b}[0m\u{1b}[2;37m+-");
    reveal_strlit("\u{1b}[0m");
    reveal_strlit("\u{1b}[2;37m");
    reveal_strlit("+-");
    assert(" \u{1b}[1;37m"@ =~= " "@ + "\u{1b}[1;37m"@);
    assert("\u{1b}[0m\u{1b}[2;37m+-"@ =~= "\u{1b}[0m"@ + "\u{1b}[2;37m"@ + "+-"@);
    let first = text::padded_left(w(0, m(Op::Mean, averages)), 4);
    let second = text::padded_right(
        w(
            0,
            m(
                Op::Quotient,
                seq![
                    capped(m(Op::StdDev, averages)),
                    m(Op::Root, seq![m(Op::Count(num_samples as u64), seq![])]),
                ],
            ),
        ),
        2,
    );
    assert(entry(m, w, averages, num_samples) =~= " \u{1b}[1;37m"@ + first
        + "\u{1b}[0m\u{1b}[2;37m+-"@ + second + "\u{1b}[0m"@);
}

/// A measurement is placed at its cores, on their nodes as the map knows them,
/// and on the node of its domain; what is not known is node 0.
pub proof fn law_place(
    core_numa: Map<usize, i32>,
    placed: Seq<Placed>,
    domain: int,
    ping: CoreId,
    pong: CoreId,
)
    ensures
        ({
            let p = place_of(core_numa, placed, domain, ping, pong);
            &&& p.ping_core == ping.id
            &&& p.pong_core == pong.id
            &&& core_numa.contains_key(ping.id) ==> p.ping_numa == core_numa[ping.id]
            &&& core_numa.contains_key(pong.id) ==> p.pong_numa == core_numa[pong.id]
            &&& !core_numa.contains_key(ping.id) ==> p.ping_numa == 0
            &&& !core_numa.contains_key(pong.id) ==> p.pong_numa == 0
            &&& 0 <= domain < placed.len() ==> p.mem_numa == placed[domain].node
            &&& domain >= placed.len() ==> p.mem_numa == 0
        }),
{
}

/// A cell is at the virtual address that is known for it, else at 0.
pub proof fn law_vaddr(vaddrs: Seq<usize>, address: int)
    ensures
        0 <= address < vaddrs.len() ==> vaddr_at(vaddrs, address) == vaddrs[address],
        address >= vaddrs.len() ==> vaddr_at(vaddrs, address) == 0,
{
}

/// A row of a full matrix has a step for each core: a measurement, or nine
/// spaces for the core itself. A row of half a matrix has a measurement for
/// each core before it.
pub proof fn law_row(domain: int, ping: int, n: int)
    requires
        0 <= ping < n,
    ensures
        row_steps(false, domain, ping, n) == Seq::new(
            n as nat,
            |j: int|
                if j == ping {
                    StepModel::Print("         "@)
                } else {
                    StepModel::Measure(domain, ping, j)
                },
        ),
        row_steps(true, domain, ping, n) == Seq::new(
            ping as nat,
            |j: int| StepModel::Measure(domain, ping, j),
        ),
{
    reveal_strlit("         ");
    assert(text::spaces(9) =~= "         "@);
    lemma_full_row(domain, ping, n);
    lemma_half_row(domain, ping, n);
}

proof fn lemma_full_row(domain: int, ping: int, n: int)
    requires
        0 <= n,
    ensures
        row_steps(false, domain, ping, n).len() == n,
        forall|j: int|
            0 <= j < n ==> #[trigger] row_steps(false, domain, ping, n)[j] == (if j == ping {
                StepModel::Print(text::spaces(9))
            } else {
                StepModel::Measure(domain, ping, j)
            }),
    decreases n,
{
    if n > 0 {
        lemma_full_row(domain, ping, n - 1);
    }
}

proof fn lemma_half_row(domain: int, ping: int, n: int)
    requires
        0 <= n,
        0 <= ping,
    ensures
        row_steps(true, domain, ping, n).len() == (if n < ping {
            n
        } else {
            ping
        }),
        forall|j: int|
            0 <= j < n && j < ping ==> #[trigger] row_steps(true, domain, ping, n)[j]
                == StepModel::Measure(domain, ping, j),
    decreases n,
{
    if n > 0 {
        lemma_half_row(domain, ping, n - 1);
    }
}

/// One more row of a matrix is its core's id, in three columns after four
/// spaces, then the steps of the row, then the end of the line.
pub proof fn law_next_row(cores: Seq<CoreId>, symmetric: bool, domain: int, ping: int)
    requires
        0 <= ping < cores.len(),
    ensures
        matrix_steps(cores, symmetric, domain, 0).len() == 0,
        matrix_steps(cores, symmetric, domain, ping + 1) == matrix_steps(
            cores,
            symmetric,
            domain,
            ping,
        ).push(
            StepModel::Print(
                "    "@ + text::padded_left(number::dec(cores[ping].id as nat), 3),
            ),
        ) + row_steps(symmetric, domain, ping, cores.len() as int).push(StepModel::Print("\n"@)),
{
    let before = matrix_steps(cores, symmetric, domain, ping);
    let label = StepModel::Print(
        "    "@ + text::padded_left(number::dec(cores[ping].id as nat), 3),
    );
    let row = row_steps(symmetric, domain, ping, cores.len() as int);
    let end = StepModel::Print("\n"@);
    assert(matrix_steps(cores, symmetric, domain, ping + 1) =~= before.push(label) + row.push(
        end,
    ));
}

/// One more column of the header is the id of its core, in four columns
/// between a space and four spaces.
pub proof fn law_next_column(cores: Seq<CoreId>, core: CoreId)
    ensures
        header(Seq::empty()) == "       \n"@,
        header(cores.push(core)) == header(cores).drop_last() + (" "@ + text::padded_left(
            number::dec(core.id as nat),
            4,
        ) + "    \n"@),
{
    reveal_strlit("       ");
    reveal_strlit("       \n");
    reveal_strlit("    \n");
    reveal_strlit("    ");
    reveal_strlit("\n");
    assert(header(Seq::empty()) =~= "       \n"@);
    let all = cores.push(core);
    let n = cores.len() as int;
    lemma_columns(cores, all, n);
    assert(header(all) =~= header(cores).drop_last() + (" "@ + text::padded_left(
        number::dec(core.id as nat),
        4,
    ) + "    \n"@));
}

proof fn lemma_columns(a: Seq<CoreId>, b: Seq<CoreId>, n: int)
    requires
        n <= a.len() <= b.len(),
        forall|i: int| 0 <= i < n ==> a[i] == #[trigger] b[i],
    ensures
        columns(a, n) == columns(b, n),
    decreases n,
{
    if n > 0 {
        lemma_columns(a, b, n - 1);
        assert(a[n - 1] == b[n - 1]);
    }
}

/// What is said of a domain before its matrix: the node, or that it is not
/// known, after an empty line where there are more domains; and a warning
/// where the buffer is on more than one node.
pub proof fn law_banner(placed: Placed, num_domains: int)
    ensures
        num_domains > 1 ==> banner(placed, num_domains) == "\n"@ + banner(placed, 1),
        num_domains <= 1 ==> banner(placed, num_domains) == banner(placed, 1),
        placed.node >= 0 && !placed.spanned ==> banner(placed, 1)
            == "    \u{1b}[2;37mMemory domain:\u{1b}[0m NUMA node "@ + number::dec(
            placed.node as nat,
        ) + "\n"@,
        placed.node < 0 && !placed.spanned ==> banner(placed, 1)
            == "    \u{1b}[2;37mMemory domain:\u{1b}[0m memory placement unverified\n"@,
        placed.spanned ==> banner(placed, 1) == banner(
            Placed { spanned: false, ..placed },
            1,
        ) + ("    "@ + style::painted(
            Tint::YellowBold,
            "WARN: this domain's shared buffer landed on more than one NUMA node (default first-touch). Latencies mix local and remote access; pass --numa <node> to pin placement."@,
        ) + "\n"@),
{
    reveal_strlit("");
    reveal_strlit("\n");
    reveal_strlit(" ");
    reveal_strlit("    ");
    reveal_strlit("Memory domain:");
    reveal_strlit("\u{1b}[2;37m");
    reveal_strlit("\u{1b}[0m");
    reveal_strlit("memory placement unverified");
    reveal_strlit("NUMA node ");
    reveal_strlit("    \u{1b}[2;37mMemory domain:\u{1b}[0m NUMA node ");
    reveal_strlit("    \u{1b}[2;37mMemory domain:\u{1b}[0m memory placement unverified\n");
    let painted = style::painted(Tint::WhiteDimmed, "Memory domain:"@);
    assert("    \u{1b}[2;37mMemory domain:\u{1b}[0m NUMA node "@ =~= "    "@ + painted + " "@
        + "NUMA node "@);
    assert("    \u{1b}[2;37mMemory domain:\u{1b}[0m memory placement unverified\n"@ =~= "    "@
        + painted + " "@ + "memory placement unverified"@ + "\n"@);
    let plain = Placed { spanned: false, ..placed };
    let said = "    "@ + painted + " "@ + mem_numa_text(placed.node) + "\n"@;
    assert(banner(plain, 1) =~= said);
    if placed.node >= 0 {
        assert(said =~= "    \u{1b}[2;37mMemory domain:\u{1b}[0m NUMA node "@ + number::dec(
            placed.node as nat,
        ) + "\n"@);
    } else {
        assert(said
            =~= "    \u{1b}[2;37mMemory domain:\u{1b}[0m memory placement unverified\n"@);
    }
    let warning = "    "@ + style::painted(
        Tint::YellowBold,
        "WARN: this domain's shared buffer landed on more than one NUMA node (default first-touch). Latencies mix local and remote access; pass --numa <node> to pin placement."@,
    ) + "\n"@;
    if placed.spanned {
        assert(banner(placed, 1) =~= said + warning);
    } else {
        assert(placed == plain);
    }
    if num_domains > 1 {
        assert(banner(placed, num_domains) =~= "\n"@ + banner(placed, 1));
    }
}

/// One more domain is what is said of it, where placement is shown, then the
/// header, then the whole matrix.
pub proof fn law_next_domain(
    cores: Seq<CoreId>,
    symmetric: bool,
    placed: Seq<Placed>,
    num_domains: int,
    domain: int,
)
    requires
        0 <= domain < placed.len(),
    ensures
        sweep_steps(cores, symmetric, true, placed, num_domains, domain + 1) == sweep_steps(
            cores,
            symmetric,
            true,
            placed,
            num_domains,
            domain,
        ).push(StepModel::Print(banner(placed[domain], num_domains))).push(
            StepModel::Print(header(cores)),
        ) + matrix_steps(cores, symmetric, domain, cores.len() as int),
        sweep_steps(cores, symmetric, false, placed, num_domains, domain + 1) == sweep_steps(
            cores,
            symmetric,
            false,
            placed,
            num_domains,
            domain,
        ).push(StepModel::Print(header(cores))) + matrix_steps(
            cores,
            symmetric,
            domain,
            cores.len() as int,
        ),
{
    let shown = sweep_steps(cores, symmetric, true, placed, num_domains, domain);
    let bare = sweep_steps(cores, symmetric, false, placed, num_domains, domain);
    let said = StepModel::Print(banner(placed[domain], num_domains));
    let top = StepModel::Print(header(cores));
    let m = matrix_steps(cores, symmetric, domain, cores.len() as int);
    assert(sweep_steps(cores, symmetric, true, placed, num_domains, domain + 1) =~= shown.push(
        said,
    ).push(top) + m);
    assert(sweep_steps(cores, symmetric, false, placed, num_domains, domain + 1) =~= bare.push(
        top,
    ) + m);
}

/// Whether the one step is to come before the other: a measurement before one
/// in a later domain, of a later ping core, or of a later pong core.
pub open spec fn comes_before(a: StepModel, b: StepModel) -> bool {
    match (a, b) {
        (StepModel::Measure(d, i, j), StepModel::Measure(e, k, l)) => d < e || (d == e && (i < k
            || (i == k && j < l))),
        _ => true,
    }
}

/// Whether the measurements come domain by domain, in each by the ping core,
/// and for each by the pong core.
pub open spec fn in_turn(s: Seq<StepModel>) -> bool {
    forall|p: int, q: int| 0 <= p < q < s.len() ==> comes_before(#[trigger] s[p], #[trigger] s[q])
}

/// A sweep measures in turn.
pub proof fn law_measured_in_turn(
    cores: Seq<CoreId>,
    symmetric: bool,
    show_placement: bool,
    placed: Seq<Placed>,
    num_domains: int,
    n: int,
)
    requires
        0 <= n,
    ensures
        in_turn(sweep_steps(cores, symmetric, show_placement, placed, num_domains, n)),
        forall|p: int|
            0 <= p < sweep_steps(
                cores,
                symmetric,
                show_placement,
                placed,
                num_domains,
                n,
            ).len() ==> (#[trigger] sweep_steps(
                cores,
                symmetric,
                show_placement,
                placed,
                num_domains,
                n,
            )[p] matches StepModel::Measure(d, i, j) ==> 0 <= d < n),
    decreases n,
{
    if n > 0 {
        law_measured_in_turn(cores, symmetric, show_placement, placed, num_domains, n - 1);
        lemma_matrix_in_turn(cores, symmetric, n - 1, cores.len() as int);
        let a = sweep_steps(cores, symmetric, show_placement, placed, num_domains, n - 1);
        let said = StepModel::Print(banner(placed_at(placed, n - 1), num_domains));
        let b = if show_placement {
            seq![said]
        } else {
            seq![]
        };
        let top = StepModel::Print(header(cores));
        let m = matrix_steps(cores, symmetric, n - 1, cores.len() as int);
        let all = sweep_steps(cores, symmetric, show_placement, placed, num_domains, n);
        assert(all =~= a + b + seq![top] + m);
        let k = (a + b + seq![top]).len() as int;
        assert forall|p: int, q: int| 0 <= p < q < all.len() implies comes_before(
            #[trigger] all[p],
            #[trigger] all[q],
        ) by {
            if p < a.len() {
                assert(all[p] == a[p]);
            }
            if q < a.len() {
                assert(all[q] == a[q]);
            }
            if p >= k {
                assert(all[p] == m[p - k]);
            }
            if q >= k {
                assert(all[q] == m[q - k]);
            }
        }
        assert forall|p: int| 0 <= p < all.len() implies (#[trigger] all[p] matches
            StepModel::Measure(d, i, j) ==> 0 <= d < n) by {
            if p < a.len() {
                assert(all[p] == a[p]);
            }
            if p >= k {
                assert(all[p] == m[p - k]);
            }
        }
    }
}

proof fn lemma_row_in_turn(symmetric: bool, domain: int, ping: int, n: int)
    requires
        0 <= n,
    ensures
        in_turn(row_steps(symmetric, domain, ping, n)),
        forall|p: int|
            0 <= p < row_steps(symmetric, domain, ping, n).len() ==> (#[trigger] row_steps(
                symmetric,
                domain,
                ping,
                n,
            )[p] matches StepModel::Measure(d, i, j) ==> d == domain && i == ping && 0 <= j < n),
    decreases n,
{
    if n > 0 {
        lemma_row_in_turn(symmetric, domain, ping, n - 1);
        let a = row_steps(symmetric, domain, ping, n - 1);
        let b = pair_steps(symmetric, domain, ping, n - 1);
        let all = row_steps(symmetric, domain, ping, n);
        assert(all =~= a + b);
        assert forall|p: int, q: int| 0 <= p < q < all.len() implies comes_before(
            #[trigger] all[p],
            #[trigger] all[q],
        ) by {
            assert(all[p] == a[p]);
            if q < a.len() {
                assert(all[q] == a[q]);
            }
        }
        assert forall|p: int| 0 <= p < all.len() implies (#[trigger] all[p] matches
            StepModel::Measure(d, i, j) ==> d == domain && i == ping && 0 <= j < n) by {
            if p < a.len() {
                assert(all[p] == a[p]);
            }
        }
    }
}

proof fn lemma_matrix_in_turn(cores: Seq<CoreId>, symmetric: bool, domain: int, n: int)
    requires
        0 <= n <= cores.len(),
    ensures
        in_turn(matrix_steps(cores, symmetric, domain, n)),
        forall|p: int|
            0 <= p < matrix_steps(cores, symmetric, domain, n).len() ==> (#[trigger] matrix_steps(
                cores,
                symmetric,
                domain,
                n,
            )[p] matches StepModel::Measure(d, i, j) ==> d == domain && 0 <= i < n),
    decreases n,
{
    if n > 0 {
        lemma_matrix_in_turn(cores, symmetric, domain, n - 1);
        lemma_row_in_turn(symmetric, domain, n - 1, cores.len() as int);
        let a = matrix_steps(cores, symmetric, domain, n - 1);
        let label = StepModel::Print(row_label(cores[n - 1]));
        let row = row_steps(symmetric, domain, n - 1, cores.len() as int);
        let end = StepModel::Print("\n"@);
        let all = matrix_steps(cores, symmetric, domain, n);
        assert(all =~= a + seq![label] + row + seq![end]);
        let k = a.len() as int + 1;
        assert forall|p: int, q: int| 0 <= p < q < all.len() implies comes_before(
            #[trigger] all[p],
            #[trigger] all[q],
        ) by {
            if p < a.len() {
                assert(all[p] == a[p]);
            }
            if q < a.len() {
                assert(all[q] == a[q]);
            }
            if k <= p < k + row.len() {
                assert(all[p] == row[p - k]);
            }
            if k <= q < k + row.len() {
                assert(all[q] == row[q - k]);
            }
        }
        assert forall|p: int| 0 <= p < all.len() implies (#[trigger] all[p] matches
            StepModel::Measure(d, i, j) ==> d == domain && 0 <= i < n) by {
            if p < a.len() {
                assert(all[p] == a[p]);
            }
            if k <= p < k + row.len() {
                assert(all[p] == row[p - k]);
            }
        }
    }
}

/// An address without a sample at a position adds nothing to the average there.
pub proof fn law_no_sample_no_share(
    m: Arith,
    settings: Settings,
    durations: Seq<Seq<Double>>,
    n: int,
    s: int,
)
    requires
        0 < n,
        0 <= s < settings.num_samples,
        1 <= durations[n - 1].len() <= s + 1,
    ensures
        averaged(m, settings, durations, n)[s] == averaged(m, settings, durations, n - 1)[s],
{
    lemma_averaged_len(m, settings, durations, n - 1);
}

proof fn lemma_averaged_len(m: Arith, settings: Settings, durations: Seq<Seq<Double>>, n: int)
    ensures
        averaged(m, settings, durations, n).len() == settings.num_samples,
    decreases n,
{
    if n > 0 {
        lemma_averaged_len(m, settings, durations, n - 1);
    }
}

} // verus!
