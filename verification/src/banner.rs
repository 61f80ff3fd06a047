//! What a run says of itself before it starts.

use crate::cli::{Args, MeasureCommand};
use crate::layout::{join, spliced};
use crate::scan::contents;
use crate::select::{family, measurement_of, names_family};
use crate::text::{count_text, decimal};
use vstd::prelude::*;
use vstd::string::StringExecFns;

verus! {

/// Numbers in brackets, with commas between.
pub open spec fn list_text(list: Seq<usize>) -> Seq<char> {
    "["@ + spliced(list.map_values(|n: usize| decimal(n as nat)), ", "@) + "]"@
}

/// `list_text`, computed.
pub fn show_list(list: &Vec<usize>) -> (s: String)
    ensures
        s@ == list_text(list@),
{
    let mut parts: Vec<String> = Vec::new();
    let ghost all = list@.map_values(|n: usize| decimal(n as nat));
    let mut i: usize = 0;
    while i < list.len()
        invariant
            i <= list@.len(),
            all == list@.map_values(|n: usize| decimal(n as nat)),
            contents(parts@) =~= all.take(i as int),
        decreases list@.len() - i,
    {
        let ghost before = contents(parts@);
        let part = count_text(list[i]);
        parts.push(part);
        assert(contents(parts@) =~= before.push(all[i as int]));
        i = i + 1;
    }
    assert(contents(parts@) =~= all);
    let inner = join(&parts, ", ");
    let mut s = "[".to_owned();
    s.append(inner.as_str());
    s.append("]");
    s
}

/// How a run measures: in samples, widths, workers or repetitions.
pub open spec fn detail(a: Args, sweep: Seq<usize>) -> Seq<char> {
    match family(a) {
        Some(MeasureCommand::Latency) => "up to "@ + decimal(a.latency_samples as nat)
            + " distinct samples each"@,
        Some(MeasureCommand::Scaling) => "thread counts "@ + list_text(sweep) + ", "@ + decimal(
            a.reps as nat,
        ) + " reps"@,
        Some(MeasureCommand::Memory) => decimal(a.threads as nat) + " worker(s), "@
            + a.scaling_mode@ + " parallelism, median of "@ + decimal(a.reps as nat)
            + " isolated runs"@,
        _ => decimal(a.reps as nat) + " reps each"@,
    }
}

/// `detail`, computed.
pub fn measurement_detail(a: &Args, sweep: &Vec<usize>) -> (s: String)
    ensures
        s@ == detail(*a, sweep@),
{
    let reps = count_text(a.reps);
    match measurement_of(a) {
        Some(MeasureCommand::Latency) => {
            let mut s = "up to ".to_owned();
            let samples = count_text(a.latency_samples);
            s.append(samples.as_str());
            s.append(" distinct samples each");
            s
        },
        Some(MeasureCommand::Scaling) => {
            let mut s = "thread counts ".to_owned();
            let list = show_list(sweep);
            s.append(list.as_str());
            s.append(", ");
            s.append(reps.as_str());
            s.append(" reps");
            s
        },
        Some(MeasureCommand::Memory) => {
            let mut s = count_text(a.threads);
            s.append(" worker(s), ");
            s.append(a.scaling_mode.as_str());
            s.append(" parallelism, median of ");
            s.append(reps.as_str());
            s.append(" isolated runs");
            s
        },
        _ => {
            let mut s = reps;
            s.append(" reps each");
            s
        },
    }
}

/// How much a run does.
#[derive(Clone, Copy, Debug)]
pub struct Extent {
    pub native: usize,
    pub scripted: usize,
    pub models: usize,
    pub corpora: usize,
}

impl Extent {
    /// Whether its totals can be counted.
    pub open spec fn countable(self) -> bool {
        self.native + self.scripted <= usize::MAX && self.models * self.corpora <= usize::MAX
    }
}

/// The models and corpora of a run.
pub open spec fn matrix_text(e: Extent) -> Seq<char> {
    " \u{d7} "@ + decimal(e.models as nat) + " model(s) \u{d7} "@ + decimal(e.corpora as nat)
        + " corpus/corpora"@
}

/// The first line of a run: what is measured, and how much of it.
pub open spec fn banner_text(a: Args, e: Extent, sweep: Seq<usize>) -> Seq<char> {
    match family(a) {
        Some(m) => "tokbench measure "@ + m.label() + ": "@ + decimal(
            (e.native + e.scripted) as nat,
        ) + " engine(s)"@ + matrix_text(e) + ", "@ + detail(a, sweep),
        None => "tokbench: "@ + decimal((e.native + e.scripted) as nat) + " engine(s) ["@ + decimal(
            e.native as nat,
        ) + " native, "@ + decimal(e.scripted as nat) + " scripted]"@ + matrix_text(e) + " = "@
            + decimal((e.models * e.corpora) as nat) + " cells, "@ + detail(a, sweep),
    }
}

fn show_matrix(e: Extent) -> (s: String)
    ensures
        s@ == matrix_text(e),
{
    let mut s = " \u{d7} ".to_owned();
    let models = count_text(e.models);
    let corpora = count_text(e.corpora);
    s.append(models.as_str());
    s.append(" model(s) \u{d7} ");
    s.append(corpora.as_str());
    s.append(" corpus/corpora");
    s
}

/// `banner_text`, computed.
pub fn banner(a: &Args, e: Extent, sweep: &Vec<usize>) -> (s: String)
    requires
        e.countable(),
    ensures
        s@ == banner_text(*a, e, sweep@),
{
    let engines = count_text(e.native + e.scripted);
    let matrix = show_matrix(e);
    let how = measurement_detail(a, sweep);
    match measurement_of(a) {
        Some(m) => {
            let mut s = "tokbench measure ".to_owned();
            s.append(m.as_str());
            s.append(": ");
            s.append(engines.as_str());
            s.append(" engine(s)");
            s.append(matrix.as_str());
            s.append(", ");
            s.append(how.as_str());
            s
        },
        None => {
            let native = count_text(e.native);
            let scripted = count_text(e.scripted);
            let cells = count_text(e.models * e.corpora);
            let mut s = "tokbench: ".to_owned();
            s.append(engines.as_str());
            s.append(" engine(s) [");
            s.append(native.as_str());
            s.append(" native, ");
            s.append(scripted.as_str());
            s.append(" scripted]");
            s.append(matrix.as_str());
            s.append(" = ");
            s.append(cells.as_str());
            s.append(" cells, ");
            s.append(how.as_str());
            s
        },
    }
}

// ---------------------------------------------------------------------------
// What the answers are
// ---------------------------------------------------------------------------

/// Numbers are listed in brackets, in digits, with commas between them.
pub proof fn law_lists_are_bracketed(
    list: &Vec<usize>,
    s: String,
    parts: &Vec<String>,
    comma: &str,
    inner: String,
)
    requires
        call_ensures(show_list, (list,), s),
        parts@.len() == list@.len(),
        forall|i: int|
            0 <= i < parts@.len() ==> call_ensures(
                count_text,
                (list@[i],),
                #[trigger] parts@[i],
            ),
        comma@ == ", "@,
        call_ensures(join, (parts, comma), inner),
    ensures
        s@ == "["@ + inner@ + "]"@,
{
    let all = list@.map_values(|n: usize| decimal(n as nat));
    assert forall|i: int| 0 <= i < all.len() implies all[i] == #[trigger] contents(parts@)[i] by {
        assert(parts@[i]@ == decimal(list@[i] as nat));
    }
    assert(contents(parts@) =~= all);
}

/// What is said of a measurement goes by what is measured: how many samples at most, how
/// many threads, how many workers, and how often.
pub proof fn law_details_go_by_the_family(a: &Args, sweep: &Vec<usize>, s: String, list: String)
    requires
        call_ensures(measurement_detail, (a, sweep), s),
        call_ensures(show_list, (sweep,), list),
    ensures
        ({
            let reps = decimal(a.reps as nat);
            let is_latency = names_family(*a, MeasureCommand::Latency);
            let is_scaling = names_family(*a, MeasureCommand::Scaling);
            let is_memory = names_family(*a, MeasureCommand::Memory);
            &&& is_latency ==> s@ == "up to "@ + decimal(a.latency_samples as nat)
                + " distinct samples each"@
            &&& is_scaling ==> s@ == "thread counts "@ + list@ + ", "@ + reps + " reps"@
            &&& is_memory ==> s@ == decimal(a.threads as nat) + " worker(s), "@ + a.scaling_mode@
                + " parallelism, median of "@ + reps + " isolated runs"@
            &&& !is_latency && !is_scaling && !is_memory ==> s@ == reps + " reps each"@
        }),
{
}

/// A run says what it measures, with how many engines, on how many models and corpora,
/// and how. One of everything says besides how many of the engines are scripted and how
/// many cells it has.
pub proof fn law_banner_says_how_much(
    a: &Args,
    e: Extent,
    sweep: &Vec<usize>,
    s: String,
    how: String,
    what: &'static str,
)
    requires
        e.countable(),
        call_ensures(banner, (a, e, sweep), s),
        call_ensures(measurement_detail, (a, sweep), how),
        family(*a) is Some ==> call_ensures(MeasureCommand::as_str, (family(*a)->0,), what),
    ensures
        ({
            let engines = decimal((e.native + e.scripted) as nat);
            let matrix = " \u{d7} "@ + decimal(e.models as nat) + " model(s) \u{d7} "@ + decimal(
                e.corpora as nat,
            ) + " corpus/corpora"@;
            &&& a.command is Some ==> s@ == "tokbench measure "@ + what@ + ": "@ + engines
                + " engine(s)"@ + matrix + ", "@ + how@
            &&& a.command is None ==> s@ == "tokbench: "@ + engines + " engine(s) ["@ + decimal(
                e.native as nat,
            ) + " native, "@ + decimal(e.scripted as nat) + " scripted]"@ + matrix + " = "@
                + decimal((e.models * e.corpora) as nat) + " cells, "@ + how@
        }),
{
}

}
