//! The arguments of a run.

use crate::number;
use crate::stats::SampleAgg;
use crate::style;
use crate::style::Tint;
use crate::text;
use vstd::prelude::*;

verus! {

/// A number of iterations or samples.
pub type Count = u32;

/// The samples taken where nothing else is said.
pub const DEFAULT_NUM_SAMPLES: Count = 300;

/// The iterations per sample where nothing else is said.
pub const DEFAULT_NUM_ITERATIONS_PER_SAMPLE: Count = 1000;

/// The addresses tested where nothing else is said.
pub const DEFAULT_NUM_ADDRESSES: usize = 1;

/// The arguments of a run.
#[derive(Clone)]
pub struct CliArgs {
    /// The number of iterations per sample.
    pub num_iterations: Count,
    /// The number of samples.
    pub num_samples: Count,
    /// The number of addresses to test in each memory domain.
    pub num_addresses: usize,
    /// How the samples of a cell are collapsed to one value.
    pub sample_agg: SampleAgg,
    /// Whether CSV files are written.
    pub csv: bool,
    /// What the names of the CSV files begin with.
    pub csv_output_prefix: String,
    /// The benchmarks to run, by their numbers.
    pub bench: Vec<usize>,
    /// The cores to use; all of them where nothing is said.
    pub cores: Vec<String>,
    /// The memory domains to use; the kernel's choice where nothing is said.
    pub numa: Vec<String>,
}

impl CliArgs {
    /// The settings of a run, as they are shown.
    pub open spec fn settings_text(self) -> Seq<char> {
        "Num iterations per samples: "@ + number::dec(self.num_iterations as nat)
            + "\nNum samples: "@ + number::dec(self.num_samples as nat)
            + "\nSample aggregation: "@ + self.sample_agg.named() + "\n"@
    }

    /// The settings of a run, as they are shown.
    pub fn settings(&self) -> (r: String)
        ensures
            r@ == self.settings_text(),
    {
        let mut out: String = "Num iterations per samples: ".to_owned();
        number::push_dec(&mut out, self.num_iterations as u64);
        out.append("\nNum samples: ");
        number::push_dec(&mut out, self.num_samples as u64);
        out.append("\nSample aggregation: ");
        out.append(self.sample_agg.name());
        out.append("\n");
        out
    }

    /// Whether a run is possible: it needs an address at least.
    pub fn check(&self) -> (r: Result<(), String>)
        ensures
            r is Ok <==> self.num_addresses >= 1,
            r matches Err(e) ==> e@ == "--num-addresses must be at least 1"@,
    {
        if self.num_addresses == 0 {
            Err("--num-addresses must be at least 1".to_owned())
        } else {
            Ok(())
        }
    }
}

/// The number of cores, as it is shown.
pub fn fmt_num_cores(n: usize) -> (r: String)
    ensures
        r@ == "Num cores: "@ + number::dec(n as nat) + "\n"@,
{
    let mut out: String = "Num cores: ".to_owned();
    number::push_usize(&mut out, n);
    out.append("\n");
    out
}

/// What is said on a system that may move threads between cores.
pub fn affinity_warning() -> (r: String)
    ensures
        r@ == style::painted(
            Tint::RedBold,
            "WARN macOS may ignore thread-CPU affinity (we can't select a CPU to run on). Results may be inaccurate"@,
        ) + "\n"@,
{
    let mut out: String = style::paint(
        Tint::RedBold,
        "WARN macOS may ignore thread-CPU affinity (we can't select a CPU to run on). Results may be inaccurate",
    );
    out.append("\n");
    out
}

/// How a run ends on an error.
pub fn error_line(error: &str) -> (r: String)
    ensures
        r@ == "ERROR: "@ + error@ + "\n"@,
{
    let mut out: String = "ERROR: ".to_owned();
    out.append(error);
    out.append("\n");
    out
}

/// The settings can be read back, line by line: the iterations, the samples,
/// and how samples are collapsed.
pub proof fn law_settings_read_back(a: CliArgs)
    ensures
        ({
            let lines = text::pieces(a.settings_text(), '\n');
            &&& lines.len() == 4
            &&& lines[0] == "Num iterations per samples: "@ + number::dec(a.num_iterations as nat)
            &&& lines[1] == "Num samples: "@ + number::dec(a.num_samples as nat)
            &&& lines[2] == (if a.sample_agg is Mean {
                "Sample aggregation: mean"@
            } else {
                "Sample aggregation: median"@
            })
            &&& lines[3].len() == 0
        }),
{
    reveal_strlit("Num iterations per samples: ");
    reveal_strlit("\nNum samples: ");
    reveal_strlit("Num samples: ");
    reveal_strlit("\nSample aggregation: ");
    reveal_strlit("Sample aggregation: mean");
    reveal_strlit("Sample aggregation: median");
    reveal_strlit("mean");
    reveal_strlit("median");
    reveal_strlit("\n");
    let none = Seq::<char>::empty();
    let first = "Num iterations per samples: "@ + number::dec(a.num_iterations as nat);
    let second = "Num samples: "@ + number::dec(a.num_samples as nat);
    let third = if a.sample_agg is Mean {
        "Sample aggregation: mean"@
    } else {
        "Sample aggregation: median"@
    };
    lemma_one_line("Num iterations per samples: "@, a.num_iterations as nat);
    lemma_one_line("Num samples: "@, a.num_samples as nat);
    assert(!third.contains('\n'));
    text::lemma_position_is(none, '\n', 0);
    assert(text::pieces(none, '\n') == seq![none]);
    text::lemma_line_added(none, first);
    let one = none + first + seq!['\n'];
    text::lemma_line_added(one, second);
    let two = one + second + seq!['\n'];
    text::lemma_line_added(two, third);
    let three = two + third + seq!['\n'];
    assert("\nNum samples: "@ =~= seq!['\n'] + "Num samples: "@);
    assert("\n"@ =~= seq!['\n']);
    assert("\nSample aggregation: "@ + a.sample_agg.named() =~= seq!['\n'] + third);
    assert(a.settings_text() =~= first + ("\nNum samples: "@ + number::dec(a.num_samples as nat))
        + ("\nSample aggregation: "@ + a.sample_agg.named()) + "\n"@);
    assert(a.settings_text() =~= three);
}

proof fn lemma_one_line(label: Seq<char>, n: nat)
    requires
        !label.contains('\n'),
    ensures
        !(label + number::dec(n)).contains('\n'),
{
    number::lemma_dec_digits(n);
    let line = label + number::dec(n);
    if line.contains('\n') {
        let k = choose|k: int| 0 <= k < line.len() && line[k] == '\n';
        if k < label.len() {
            assert(label[k] == '\n');
        } else {
            assert(number::is_digit(number::dec(n)[k - label.len()]));
        }
    }
}

} // verus!
