//! The command line.
//!
//! The options are a table, `clap` reads a line by it, and what it read is
//! turned into typed arguments here.

use crate::engine::batch_texts;
use crate::scan::contents;
use crate::text::{chars_of, digits_value, lemma_within, number, parse_usize, parse_within, same,
    within, Fault};
use clap::builder::{PossibleValuesParser, ValueParser};
use clap::{Arg, ArgAction, ArgMatches, Command};
use vstd::prelude::*;
use vstd::string::StringExecFns;

verus! {

/// The measurement families.
#[derive(Clone, Copy, Debug, PartialEq, Eq, Structural)]
pub enum MeasureCommand {
    /// Single-thread encode throughput.
    Encode,
    /// Decode throughput over the reference engine's token ids.
    Decode,
    /// Call-level encode latency.
    Latency,
    /// Multi-thread encode throughput and efficiency.
    Scaling,
    /// Live heap held by a loaded and warmed tokenizer.
    Memory,
}

impl MeasureCommand {
    pub open spec fn label(self) -> Seq<char> {
        match self {
            MeasureCommand::Encode => "encode"@,
            MeasureCommand::Decode => "decode"@,
            MeasureCommand::Latency => "latency"@,
            MeasureCommand::Scaling => "scaling"@,
            MeasureCommand::Memory => "memory"@,
        }
    }

    pub fn as_str(self) -> (r: &'static str)
        ensures
            r@ == self.label(),
    {
        match self {
            MeasureCommand::Encode => "encode",
            MeasureCommand::Decode => "decode",
            MeasureCommand::Latency => "latency",
            MeasureCommand::Scaling => "scaling",
            MeasureCommand::Memory => "memory",
        }
    }
}

/// What the program is asked to do besides a full run.
#[derive(Clone, Copy, Debug, PartialEq, Eq)]
pub enum CliCommand {
    /// Run exactly one measurement family and skip every unrelated pass.
    Measure { command: MeasureCommand },
}

/// The arguments of the program.
#[derive(Clone, Debug)]
pub struct Args {
    pub command: Option<CliCommand>,
    pub models: String,
    pub corpora: String,
    pub reps: usize,
    pub no_warmup: bool,
    pub cache_capacity: Option<usize>,
    pub engine: Vec<String>,
    pub compare_to: Option<String>,
    pub model: Vec<String>,
    pub corpus: Vec<String>,
    pub out: String,
    pub open: bool,
    pub python: String,
    pub no_memory: bool,
    pub no_decode: bool,
    pub latency: Vec<String>,
    pub latency_bytes: usize,
    pub latency_samples: usize,
    pub scaling: Vec<String>,
    pub max_threads: Option<usize>,
    pub threads: usize,
    pub reverse_scaling: bool,
    pub scaling_mode: String,
    pub padding: String,
    pub binary_sizes: String,
    pub package_sizes: String,
    pub memory: Option<String>,
    pub memory_model: Option<String>,
    pub memory_corpus: Option<String>,
    pub memory_threads: Option<usize>,
}

// ---------------------------------------------------------------------------
// The options
// ---------------------------------------------------------------------------

/// A value that is one of a list of words.
#[derive(Clone, Copy, Debug, PartialEq, Eq, Structural)]
pub enum Choice {
    ScalingMode,
    Padding,
}

impl Choice {
    /// The words of the list.
    pub open spec fn listed(self) -> Seq<Seq<char>> {
        match self {
            Choice::ScalingMode => seq!["auto"@, "native-threads"@, "independent-instances"@],
            Choice::Padding => seq!["off"@, "longest"@, "both"@],
        }
    }

    /// `listed`, computed.
    pub fn words(self) -> (r: Vec<&'static str>)
        ensures
            batch_texts(r@) == self.listed(),
    {
        let mut r: Vec<&'static str> = Vec::new();
        match self {
            Choice::ScalingMode => {
                r.push("auto");
                r.push("native-threads");
                r.push("independent-instances");
            },
            Choice::Padding => {
                r.push("off");
                r.push("longest");
                r.push("both");
            },
        }
        assert(batch_texts(r@) =~= self.listed());
        r
    }

    /// Whether a word is on the list.
    fn has(self, text: &str) -> (r: bool)
        ensures
            r == self.listed().contains(text@),
    {
        match self {
            Choice::ScalingMode => {
                proof {
                    lemma_three(self.listed(), text@);
                }
                same(text, "auto") || same(text, "native-threads") || same(
                    text,
                    "independent-instances",
                )
            },
            Choice::Padding => {
                proof {
                    lemma_three(self.listed(), text@);
                }
                same(text, "off") || same(text, "longest") || same(text, "both")
            },
        }
    }
}

proof fn lemma_three(list: Seq<Seq<char>>, word: Seq<char>)
    requires
        list.len() == 3,
    ensures
        list.contains(word) <==> word == list[0] || word == list[1] || word == list[2],
{
    if word == list[0] {
        assert(list.contains(list[0]));
    }
    if word == list[1] {
        assert(list.contains(list[1]));
    }
    if word == list[2] {
        assert(list.contains(list[2]));
    }
}

/// What stands behind an option. Every option with a value may stand once, but
/// for those of the kind `Many`.
#[derive(Clone, Copy, Debug, PartialEq, Eq, Structural)]
pub enum Kind {
    /// Nothing.
    Flag,
    /// Any text, and the option may stand any number of times.
    Many,
    /// Any text.
    Text,
    /// A path, which is not empty.
    Path,
    /// A number of at least so much.
    Count(usize),
    /// One word of a list.
    OneOf(Choice),
}

/// A kind as a value of the contracts, with the words of a list spelled out.
pub ghost enum Form {
    Flag,
    Many,
    Text,
    Path,
    Count(usize),
    OneOf(Seq<Seq<char>>),
}

impl Kind {
    pub open spec fn form(self) -> Form {
        match self {
            Kind::Flag => Form::Flag,
            Kind::Many => Form::Many,
            Kind::Text => Form::Text,
            Kind::Path => Form::Path,
            Kind::Count(least) => Form::Count(least),
            Kind::OneOf(choice) => Form::OneOf(choice.listed()),
        }
    }
}

/// Whether a value is one that an option of this form takes.
pub open spec fn takes(form: Form, value: Seq<char>) -> bool {
    match form {
        Form::Flag | Form::Many | Form::Text => true,
        Form::Path => value.len() > 0,
        Form::Count(least) => counts(value, least as nat),
        Form::OneOf(words) => words.contains(value),
    }
}

/// `takes`, computed.
fn is_taken(kind: Kind, value: &str) -> (r: bool)
    ensures
        r == takes(kind.form(), value@),
{
    match kind {
        Kind::Flag => true,
        Kind::Many => true,
        Kind::Text => true,
        Kind::Path => !chars_of(value).is_empty(),
        Kind::Count(least) => match parse_usize(value) {
            Some(n) => n >= least,
            None => false,
        },
        Kind::OneOf(choice) => choice.has(value),
    }
}

/// What is wrong with a text that an option that counts does not take.
pub open spec fn count_fault(text: Seq<char>) -> Seq<char> {
    if text.len() == 0 {
        "cannot parse integer from empty string"@
    } else {
        match within(text, usize::MAX as nat) {
            Err(f) => f.text(),
            Ok(_) => "number would be zero for non-zero type"@,
        }
    }
}

/// The number of at least `least` that a text writes, or what is wrong with it.
pub fn read_number(text: &str, least: usize) -> (r: Result<usize, String>)
    ensures
        r is Ok <==> counts(text@, least as nat),
        r matches Ok(n) ==> number(text@) == Some(n as nat),
        r matches Err(why) ==> why@ == count_fault(text@),
{
    if chars_of(text).is_empty() {
        return Err("cannot parse integer from empty string".to_owned());
    }
    proof {
        lemma_within(text@, usize::MAX as nat);
    }
    match parse_within(text, usize::MAX as u64) {
        Ok(n) => if n as usize >= least {
            Ok(n as usize)
        } else {
            Err("number would be zero for non-zero type".to_owned())
        },
        Err(f) => Err(f.as_str().to_owned()),
    }
}

/// An option. A global one may stand behind the subcommand too.
pub struct Opt {
    pub name: &'static str,
    pub kind: Kind,
    pub global: bool,
    pub hidden: bool,
    /// How its value is called in the help.
    pub shown: Option<&'static str>,
    pub default: Option<&'static str>,
    pub help: Option<&'static str>,
    pub long_help: Option<&'static str>,
}

/// An option as a value of the contracts.
pub ghost struct Shape {
    pub name: Seq<char>,
    pub form: Form,
    pub global: bool,
    pub hidden: bool,
    pub shown: Option<Seq<char>>,
    pub default: Option<Seq<char>>,
    pub help: Option<Seq<char>>,
    pub long_help: Option<Seq<char>>,
}

pub open spec fn shape(
    name: Seq<char>,
    form: Form,
    global: bool,
    hidden: bool,
    shown: Option<Seq<char>>,
    default: Option<Seq<char>>,
    help: Option<Seq<char>>,
    long_help: Option<Seq<char>>,
) -> Shape {
    Shape { name, form, global, hidden, shown, default, help, long_help }
}

/// A text that may be missing, as a value of the contracts.
pub open spec fn chars_in(text: Option<&'static str>) -> Option<Seq<char>> {
    match text {
        Some(t) => Some(t@),
        None => None,
    }
}

/// The shape that an option has in a given form.
pub open spec fn formed(o: Opt, form: Form) -> Shape {
    shape(
        o.name@,
        form,
        o.global,
        o.hidden,
        chars_in(o.shown),
        chars_in(o.default),
        chars_in(o.help),
        chars_in(o.long_help),
    )
}

/// The shape of an option.
pub open spec fn shape_of(o: Opt) -> Shape {
    formed(o, o.kind.form())
}

/// The shapes of a list of options.
pub open spec fn shapes(list: Seq<Opt>) -> Seq<Shape> {
    list.map_values(|o: Opt| shape_of(o))
}

/// The options of the program.
pub open spec fn grammar() -> Seq<Shape> {
    seq![
        shape(
            "models"@,
            Form::Path,
            true,
            false,
            Some("MODELS"@),
            Some("data/models"@),
            Some("Directory of model directories; each subdirectory holds one model's artifacts (tokenizer.json plus any engine-specific files)"@),
            None,
        ),
        shape(
            "corpora"@,
            Form::Path,
            true,
            false,
            Some("CORPORA"@),
            Some("data/fixtures"@),
            Some("Directory of `.txt` corpora"@),
            None,
        ),
        shape(
            "reps"@,
            Form::Count(0),
            true,
            false,
            Some("REPS"@),
            Some("5"@),
            Some("Timed passes per cell; the median is reported"@),
            None,
        ),
        shape(
            "no-warmup"@,
            Form::Flag,
            true,
            false,
            None,
            None,
            Some("Skip the warm-up pass to report cold-cache numbers instead"@),
            None,
        ),
        shape(
            "cache-capacity"@,
            Form::Count(0),
            true,
            false,
            Some("CACHE_CAPACITY"@),
            None,
            Some("Override the tokenizers v1 pipeline BPE word-cache capacity. `0` disables the cache; omission preserves the upstream default (65,536)"@),
            None,
        ),
        shape(
            "engine"@,
            Form::Many,
            true,
            false,
            Some("ENGINE"@),
            None,
            Some("Only run these engines (repeatable). Use `all`, or omit, for everything compiled in that supports the selected measurement"@),
            None,
        ),
        shape(
            "compare-to"@,
            Form::Text,
            true,
            false,
            Some("COMPARE_TO"@),
            None,
            Some("Also measure this engine and report the target's speed relative to it"@),
            None,
        ),
        shape(
            "model"@,
            Form::Many,
            true,
            false,
            Some("MODEL"@),
            None,
            Some("Only run these models (repeatable)"@),
            None,
        ),
        shape(
            "corpus"@,
            Form::Many,
            true,
            false,
            Some("CORPUS"@),
            None,
            Some("Only run these corpora (repeatable)"@),
            None,
        ),
        shape(
            "out"@,
            Form::Path,
            true,
            false,
            Some("OUT"@),
            Some("tokenizer_bench_results.json"@),
            None,
            None,
        ),
        shape(
            "open"@,
            Form::Flag,
            true,
            false,
            None,
            None,
            Some("Open the dashboard in a browser once the JSON is written"@),
            None,
        ),
        shape(
            "python"@,
            Form::Text,
            true,
            false,
            Some("PYTHON"@),
            Some("python3"@),
            Some("Interpreter used for scripted (Python) engines"@),
            None,
        ),
        shape(
            "no-memory"@,
            Form::Flag,
            true,
            false,
            None,
            None,
            Some("Skip the per-engine footprint child processes (they roughly double wall time, since each one reloads the model)"@),
            None,
        ),
        shape(
            "no-decode"@,
            Form::Flag,
            true,
            false,
            None,
            None,
            Some("Skip the decode pass. Decode is measured over the reference engine's ids, so this also skips the extra reference encode that produces them"@),
            None,
        ),
        shape(
            "latency"@,
            Form::Many,
            false,
            false,
            Some("LATENCY"@),
            None,
            Some("Measure call-level encode latency on these corpora (repeatable)"@),
            None,
        ),
        shape(
            "latency-bytes"@,
            Form::Count(0),
            true,
            false,
            Some("LATENCY_BYTES"@),
            Some("512"@),
            Some("Maximum bytes in each distinct latency document"@),
            None,
        ),
        shape(
            "latency-samples"@,
            Form::Count(0),
            true,
            false,
            Some("LATENCY_SAMPLES"@),
            Some("1000"@),
            Some("Maximum number of distinct call-level latency samples per engine and cell"@),
            None,
        ),
        shape(
            "scaling"@,
            Form::Many,
            false,
            false,
            Some("SCALING"@),
            None,
            Some("Run the multi-thread scaling sweep on these corpora (repeatable)"@),
            Some("Run the multi-thread scaling sweep on these corpora (repeatable).\n\nScoped to named corpora rather than run everywhere because the sweep builds and warms one engine per thread at every thread count \u{2014} on an 8-core box that is ~25 extra full-corpus encodes per engine per cell, which would dominate the wall time of a full matrix. Scaling behaviour barely varies by language, so one or two representative corpora give the same answer for a fraction of the cost."@),
        ),
        shape(
            "max-threads"@,
            Form::Count(1),
            true,
            false,
            Some("MAX_THREADS"@),
            None,
            Some("Do not include thread counts above this value in scaling sweeps. Useful on large cloud instances when the published claim is scoped to a fixed core count such as 8"@),
            None,
        ),
        shape(
            "threads"@,
            Form::Count(1),
            true,
            false,
            Some("THREADS"@),
            Some("1"@),
            Some("Worker count for `measure memory`. At one worker this measures one tokenizer. At larger counts the selected scaling mode decides whether that is one native pool or several independent tokenizer instances"@),
            None,
        ),
        shape(
            "reverse-scaling"@,
            Form::Flag,
            true,
            false,
            None,
            None,
            Some("Measure scaling points from the highest thread count down to one. Jobs alternate this with the default order to expose temporal drift"@),
            None,
        ),
        shape(
            "scaling-mode"@,
            Form::OneOf(Choice::ScalingMode.listed()),
            true,
            false,
            Some("SCALING_MODE"@),
            Some("auto"@),
            Some("How scaling workers are supplied: the engine's native thread pool, independent single-threaded instances, or automatic capability-based selection"@),
            None,
        ),
        shape(
            "padding"@,
            Form::OneOf(Choice::Padding.listed()),
            true,
            false,
            Some("PADDING"@),
            Some("both"@),
            Some("Which padding modes the scaling sweep measures: `off`, `longest`, or `both`"@),
            Some("Which padding modes the scaling sweep measures: `off`, `longest`, or `both`.\n\nBoth by default. Padding to the longest document in a batch is a large and uneven cost -- a fill, often a second pass, sometimes a different output layout -- and it is a hard requirement for anyone feeding rectangular tensors, so the unpadded number alone is not usable for serving. Engines with no native padding report the padded cell as unsupported; the harness never pads on an engine's behalf."@),
        ),
        shape(
            "binary-sizes"@,
            Form::Path,
            false,
            false,
            Some("BINARY_SIZES"@),
            Some("binary_sizes.json"@),
            Some("Per-engine stripped binary deltas, as written by `scripts/binsize.sh`. Merged into the report when present"@),
            None,
        ),
        shape(
            "package-sizes"@,
            Form::Path,
            false,
            false,
            Some("PACKAGE_SIZES"@),
            Some("package_sizes.json"@),
            Some("Published package sizes, as written by `scripts/package_size.py`"@),
            None,
        ),
        shape(
            "memory"@,
            Form::Text,
            false,
            true,
            Some("MEMORY"@),
            None,
            None,
            None,
        ),
        shape(
            "memory-model"@,
            Form::Path,
            false,
            true,
            Some("MEMORY_MODEL"@),
            None,
            None,
            None,
        ),
        shape(
            "memory-corpus"@,
            Form::Path,
            false,
            true,
            Some("MEMORY_CORPUS"@),
            None,
            None,
            None,
        ),
        shape(
            "memory-threads"@,
            Form::Count(1),
            false,
            true,
            Some("MEMORY_THREADS"@),
            None,
            None,
            None,
        ),
    ]
}

/// A subcommand of a subcommand as a value of the contracts, with what the help
/// says of both.
pub ghost struct Branch {
    pub group: Seq<char>,
    pub group_about: Seq<char>,
    pub name: Seq<char>,
    pub about: Seq<char>,
}

/// What the help says of the word `measure`.
pub const MEASURE_ABOUT: &'static str =
    "Run exactly one measurement family and skip every unrelated pass";

/// What the help says of the program.
pub const ABOUT: &'static str =
    "Benchmark tokenizer engines through one shared, verified timing loop.";

/// A measurement family behind the word `measure`.
pub open spec fn branch(name: Seq<char>, about: Seq<char>) -> Branch {
    Branch { group: "measure"@, group_about: MEASURE_ABOUT@, name, about }
}

/// The measurement families.
pub open spec fn family_table() -> Seq<Branch> {
    seq![
        branch("encode"@, "Single-thread encode throughput"@),
        branch("decode"@, "Decode throughput over the reference engine's token IDs"@),
        branch("latency"@, "Call-level encode latency"@),
        branch("scaling"@, "Multi-thread encode throughput and efficiency"@),
        branch("memory"@, "Live heap held by a loaded and warmed tokenizer"@),
    ]
}

fn opt(
    name: &'static str,
    kind: Kind,
    global: bool,
    hidden: bool,
    shown: Option<&'static str>,
    default: Option<&'static str>,
    help: Option<&'static str>,
    long_help: Option<&'static str>,
) -> (r: Opt)
    ensures
        shape_of(r) == shape(
            name@,
            kind.form(),
            global,
            hidden,
            chars_in(shown),
            chars_in(default),
            chars_in(help),
            chars_in(long_help),
        ),
{
    Opt { name, kind, global, hidden, shown, default, help, long_help }
}

/// The table of the options.
pub fn options() -> (list: Vec<Opt>)
    ensures
        shapes(list@) == grammar(),
{
    let mut list: Vec<Opt> = Vec::new();
    list.push(
        opt(
            "models",
            Kind::Path,
            true,
            false,
            Some("MODELS"),
            Some("data/models"),
            Some("Directory of model directories; each subdirectory holds one model's artifacts (tokenizer.json plus any engine-specific files)"),
            None,
        ),
    );
    list.push(
        opt(
            "corpora",
            Kind::Path,
            true,
            false,
            Some("CORPORA"),
            Some("data/fixtures"),
            Some("Directory of `.txt` corpora"),
            None,
        ),
    );
    list.push(
        opt(
            "reps",
            Kind::Count(0),
            true,
            false,
            Some("REPS"),
            Some("5"),
            Some("Timed passes per cell; the median is reported"),
            None,
        ),
    );
    list.push(
        opt(
            "no-warmup",
            Kind::Flag,
            true,
            false,
            None,
            None,
            Some("Skip the warm-up pass to report cold-cache numbers instead"),
            None,
        ),
    );
    list.push(
        opt(
            "cache-capacity",
            Kind::Count(0),
            true,
            false,
            Some("CACHE_CAPACITY"),
            None,
            Some("Override the tokenizers v1 pipeline BPE word-cache capacity. `0` disables the cache; omission preserves the upstream default (65,536)"),
            None,
        ),
    );
    list.push(
        opt(
            "engine",
            Kind::Many,
            true,
            false,
            Some("ENGINE"),
            None,
            Some("Only run these engines (repeatable). Use `all`, or omit, for everything compiled in that supports the selected measurement"),
            None,
        ),
    );
    list.push(
        opt(
            "compare-to",
            Kind::Text,
            true,
            false,
            Some("COMPARE_TO"),
            None,
            Some("Also measure this engine and report the target's speed relative to it"),
            None,
        ),
    );
    list.push(
        opt(
            "model",
            Kind::Many,
            true,
            false,
            Some("MODEL"),
            None,
            Some("Only run these models (repeatable)"),
            None,
        ),
    );
    list.push(
        opt(
            "corpus",
            Kind::Many,
            true,
            false,
            Some("CORPUS"),
            None,
            Some("Only run these corpora (repeatable)"),
            None,
        ),
    );
    list.push(
        opt(
            "out",
            Kind::Path,
            true,
            false,
            Some("OUT"),
            Some("tokenizer_bench_results.json"),
            None,
            None,
        ),
    );
    list.push(
        opt(
            "open",
            Kind::Flag,
            true,
            false,
            None,
            None,
            Some("Open the dashboard in a browser once the JSON is written"),
            None,
        ),
    );
    list.push(
        opt(
            "python",
            Kind::Text,
            true,
            false,
            Some("PYTHON"),
            Some("python3"),
            Some("Interpreter used for scripted (Python) engines"),
            None,
        ),
    );
    list.push(
        opt(
            "no-memory",
            Kind::Flag,
            true,
            false,
            None,
            None,
            Some("Skip the per-engine footprint child processes (they roughly double wall time, since each one reloads the model)"),
            None,
        ),
    );
    list.push(
        opt(
            "no-decode",
            Kind::Flag,
            true,
            false,
            None,
            None,
            Some("Skip the decode pass. Decode is measured over the reference engine's ids, so this also skips the extra reference encode that produces them"),
            None,
        ),
    );
    list.push(
        opt(
            "latency",
            Kind::Many,
            false,
            false,
            Some("LATENCY"),
            None,
            Some("Measure call-level encode latency on these corpora (repeatable)"),
            None,
        ),
    );
    list.push(
        opt(
            "latency-bytes",
            Kind::Count(0),
            true,
            false,
            Some("LATENCY_BYTES"),
            Some("512"),
            Some("Maximum bytes in each distinct latency document"),
            None,
        ),
    );
    list.push(
        opt(
            "latency-samples",
            Kind::Count(0),
            true,
            false,
            Some("LATENCY_SAMPLES"),
            Some("1000"),
            Some("Maximum number of distinct call-level latency samples per engine and cell"),
            None,
        ),
    );
    list.push(
        opt(
            "scaling",
            Kind::Many,
            false,
            false,
            Some("SCALING"),
            None,
            Some("Run the multi-thread scaling sweep on these corpora (repeatable)"),
            Some("Run the multi-thread scaling sweep on these corpora (repeatable).\n\nScoped to named corpora rather than run everywhere because the sweep builds and warms one engine per thread at every thread count \u{2014} on an 8-core box that is ~25 extra full-corpus encodes per engine per cell, which would dominate the wall time of a full matrix. Scaling behaviour barely varies by language, so one or two representative corpora give the same answer for a fraction of the cost."),
        ),
    );
    list.push(
        opt(
            "max-threads",
            Kind::Count(1),
            true,
            false,
            Some("MAX_THREADS"),
            None,
            Some("Do not include thread counts above this value in scaling sweeps. Useful on large cloud instances when the published claim is scoped to a fixed core count such as 8"),
            None,
        ),
    );
    list.push(
        opt(
            "threads",
            Kind::Count(1),
            true,
            false,
            Some("THREADS"),
            Some("1"),
            Some("Worker count for `measure memory`. At one worker this measures one tokenizer. At larger counts the selected scaling mode decides whether that is one native pool or several independent tokenizer instances"),
            None,
        ),
    );
    list.push(
        opt(
            "reverse-scaling",
            Kind::Flag,
            true,
            false,
            None,
            None,
            Some("Measure scaling points from the highest thread count down to one. Jobs alternate this with the default order to expose temporal drift"),
            None,
        ),
    );
    list.push(
        opt(
            "scaling-mode",
            Kind::OneOf(Choice::ScalingMode),
            true,
            false,
            Some("SCALING_MODE"),
            Some("auto"),
            Some("How scaling workers are supplied: the engine's native thread pool, independent single-threaded instances, or automatic capability-based selection"),
            None,
        ),
    );
    list.push(
        opt(
            "padding",
            Kind::OneOf(Choice::Padding),
            true,
            false,
            Some("PADDING"),
            Some("both"),
            Some("Which padding modes the scaling sweep measures: `off`, `longest`, or `both`"),
            Some("Which padding modes the scaling sweep measures: `off`, `longest`, or `both`.\n\nBoth by default. Padding to the longest document in a batch is a large and uneven cost -- a fill, often a second pass, sometimes a different output layout -- and it is a hard requirement for anyone feeding rectangular tensors, so the unpadded number alone is not usable for serving. Engines with no native padding report the padded cell as unsupported; the harness never pads on an engine's behalf."),
        ),
    );
    list.push(
        opt(
            "binary-sizes",
            Kind::Path,
            false,
            false,
            Some("BINARY_SIZES"),
            Some("binary_sizes.json"),
            Some("Per-engine stripped binary deltas, as written by `scripts/binsize.sh`. Merged into the report when present"),
            None,
        ),
    );
    list.push(
        opt(
            "package-sizes",
            Kind::Path,
            false,
            false,
            Some("PACKAGE_SIZES"),
            Some("package_sizes.json"),
            Some("Published package sizes, as written by `scripts/package_size.py`"),
            None,
        ),
    );
    list.push(
        opt(
            "memory",
            Kind::Text,
            false,
            true,
            Some("MEMORY"),
            None,
            None,
            None,
        ),
    );
    list.push(
        opt(
            "memory-model",
            Kind::Path,
            false,
            true,
            Some("MEMORY_MODEL"),
            None,
            None,
            None,
        ),
    );
    list.push(
        opt(
            "memory-corpus",
            Kind::Path,
            false,
            true,
            Some("MEMORY_CORPUS"),
            None,
            None,
            None,
        ),
    );
    list.push(
        opt(
            "memory-threads",
            Kind::Count(1),
            false,
            true,
            Some("MEMORY_THREADS"),
            None,
            None,
            None,
        ),
    );
    assert(shapes(list@) =~= grammar());
    list
}

/// A subcommand and what the help says of it.
pub struct Family {
    pub name: &'static str,
    pub about: &'static str,
}

/// The subcommands of a group as values of the contracts.
pub open spec fn named(
    group: Seq<char>,
    group_about: Seq<char>,
    list: Seq<Family>,
) -> Seq<Branch> {
    list.map_values(|f: Family| Branch { group, group_about, name: f.name@, about: f.about@ })
}

fn families() -> (list: Vec<Family>)
    ensures
        named("measure"@, MEASURE_ABOUT@, list@) == family_table(),
{
    let mut list: Vec<Family> = Vec::new();
    list.push(Family { name: "encode", about: "Single-thread encode throughput" });
    list.push(
        Family { name: "decode", about: "Decode throughput over the reference engine's token IDs" },
    );
    list.push(Family { name: "latency", about: "Call-level encode latency" });
    list.push(Family { name: "scaling", about: "Multi-thread encode throughput and efficiency" });
    list.push(
        Family { name: "memory", about: "Live heap held by a loaded and warmed tokenizer" },
    );
    assert(named("measure"@, MEASURE_ABOUT@, list@) =~= family_table());
    list
}

// ---------------------------------------------------------------------------
// Reading a line
// ---------------------------------------------------------------------------

/// What `clap` answers a line it refuses with, `--help` among them: the text
/// and the exit code.
#[derive(Debug)]
pub struct Usage {
    pub text: String,
    pub code: i32,
}

/// A command that `clap` reads lines by.
#[verifier::external_type_specification]
#[verifier::external_body]
pub struct ExCommand(Command);

/// The name of a command, and what its help says of it.
pub uninterp spec fn texts_in(c: Command) -> Seq<Seq<char>>;

/// The options that a command holds, in the order they were added.
pub uninterp spec fn options_in(c: Command) -> Seq<Shape>;

/// The subcommands of the subcommands that a command holds.
pub uninterp spec fn families_in(c: Command) -> Seq<Branch>;

/// The values that `clap` matched.
#[verifier::external_type_specification]
#[verifier::external_body]
pub struct ExArgMatches(ArgMatches);

/// The values of every option that matches hold, by the option's name. A flag
/// has the value `true` or `false`.
pub uninterp spec fn values_in(m: ArgMatches) -> Map<Seq<char>, Seq<Seq<char>>>;

/// The subcommand of the subcommand that was matched, if one was.
pub uninterp spec fn family_in(m: ArgMatches) -> Option<Seq<char>>;

/// What `clap` reads on a line by these options and subcommands: the family and
/// the values of every option. `None` where it refuses the line.
pub uninterp spec fn clap_reads(
    options: Seq<Shape>,
    families: Seq<Branch>,
    line: Seq<Seq<char>>,
) -> Option<(Option<Seq<char>>, Map<Seq<char>, Seq<Seq<char>>>)>;

/// What `clap` answers a line with that it refuses by these texts, options and
/// subcommands: what it says, and the exit code.
pub uninterp spec fn clap_refuses(
    texts: Seq<Seq<char>>,
    options: Seq<Shape>,
    families: Seq<Branch>,
    line: Seq<Seq<char>>,
) -> (Seq<char>, i32);

/// `clap::Command::new`: a command without options or subcommands.
#[verifier::external_body]
fn bare_command(name: &'static str, about: &'static str) -> (r: Command)
    ensures
        texts_in(r) == seq![name@, about@],
        options_in(r).len() == 0,
        families_in(r).len() == 0,
{
    Command::new(name).about(about)
}

/// `clap::Command::arg` with `ArgAction::SetTrue`: the command with one more
/// option, which takes no value.
#[verifier::external_body]
fn with_flag(c: Command, o: &Opt) -> (r: Command)
    ensures
        texts_in(r) == texts_in(c),
        options_in(r) == options_in(c).push(formed(*o, Form::Flag)),
        families_in(r) == families_in(c),
{
    c.arg(
        Arg::new(o.name).long(o.name).value_name(o.shown).help(o.help).long_help(o.long_help)
            .global(o.global).hide_short_help(o.hidden).hide_long_help(o.hidden)
            .default_values(o.default)
            .action(ArgAction::SetTrue),
    )
}

/// `clap::Command::arg` with `ArgAction::Append`: the command with one more
/// option, which may stand any number of times.
#[verifier::external_body]
fn with_many(c: Command, o: &Opt) -> (r: Command)
    ensures
        texts_in(r) == texts_in(c),
        options_in(r) == options_in(c).push(formed(*o, Form::Many)),
        families_in(r) == families_in(c),
{
    c.arg(
        Arg::new(o.name).long(o.name).value_name(o.shown).help(o.help).long_help(o.long_help)
            .global(o.global).hide_short_help(o.hidden).hide_long_help(o.hidden)
            .default_values(o.default)
            .action(ArgAction::Append),
    )
}

/// `clap::Command::arg` with `ValueParser::string`: the command with one more
/// option, which takes any text.
#[verifier::external_body]
fn with_text(c: Command, o: &Opt) -> (r: Command)
    ensures
        texts_in(r) == texts_in(c),
        options_in(r) == options_in(c).push(formed(*o, Form::Text)),
        families_in(r) == families_in(c),
{
    c.arg(
        Arg::new(o.name).long(o.name).value_name(o.shown).help(o.help).long_help(o.long_help)
            .global(o.global).hide_short_help(o.hidden).hide_long_help(o.hidden)
            .default_values(o.default)
            .value_parser(ValueParser::string()),
    )
}

/// `clap::Command::arg` with `ValueParser::path_buf`: the command with one more
/// option, which takes a text that is not empty.
#[verifier::external_body]
fn with_path(c: Command, o: &Opt) -> (r: Command)
    ensures
        texts_in(r) == texts_in(c),
        options_in(r) == options_in(c).push(formed(*o, Form::Path)),
        families_in(r) == families_in(c),
{
    c.arg(
        Arg::new(o.name).long(o.name).value_name(o.shown).help(o.help).long_help(o.long_help)
            .global(o.global).hide_short_help(o.hidden).hide_long_help(o.hidden)
            .default_values(o.default)
            .value_parser(ValueParser::path_buf()),
    )
}

/// `clap::Command::arg` with a parser that calls `read_number`: the command with
/// one more option, which takes what that reads.
#[verifier::external_body]
fn with_count(c: Command, o: &Opt, least: usize) -> (r: Command)
    ensures
        texts_in(r) == texts_in(c),
        options_in(r) == options_in(c).push(formed(*o, Form::Count(least))),
        families_in(r) == families_in(c),
{
    c.arg(
        Arg::new(o.name).long(o.name).value_name(o.shown).help(o.help).long_help(o.long_help)
            .global(o.global).hide_short_help(o.hidden).hide_long_help(o.hidden)
            .default_values(o.default)
            .value_parser(ValueParser::new(move |t: &str| read_number(t, least))),
    )
}

/// `clap::Command::arg` with a `PossibleValuesParser`: the command with one more
/// option, which takes one of these words.
#[verifier::external_body]
fn with_choice(c: Command, o: &Opt, words: &Vec<&'static str>) -> (r: Command)
    ensures
        texts_in(r) == texts_in(c),
        options_in(r) == options_in(c).push(formed(*o, Form::OneOf(batch_texts(words@)))),
        families_in(r) == families_in(c),
{
    c.arg(
        Arg::new(o.name).long(o.name).value_name(o.shown).help(o.help).long_help(o.long_help)
            .global(o.global).hide_short_help(o.hidden).hide_long_help(o.hidden)
            .default_values(o.default)
            .value_parser(PossibleValuesParser::new(words.iter().copied())),
    )
}

/// `clap::Command::subcommand`: the command with its one subcommand, which needs
/// one of its own subcommands behind it.
#[verifier::external_body]
fn with_group(c: Command, group: &'static str, about: &'static str, families: &Vec<Family>) -> (r:
    Command)
    requires
        families_in(c).len() == 0,
        families@.len() > 0,
    ensures
        texts_in(r) == texts_in(c),
        options_in(r) == options_in(c),
        families_in(r) == named(group@, about@, families@),
{
    let list = families.iter().map(|f| Command::new(f.name).about(f.about));
    let sub = Command::new(group).about(about).subcommand_required(true)
        .arg_required_else_help(true).subcommands(list);
    c.subcommand(sub)
}

/// `clap::Command::try_get_matches_from`. The matches know every option of the
/// command. A refusal, `--help` among them, is what `clap` says without colours,
/// and its exit code.
#[verifier::external_body]
fn read_line(c: Command, line: &Vec<String>) -> (r: Result<ArgMatches, (String, i32)>)
    requires
        texts_in(c) == seq!["tokbench"@, ABOUT@],
        options_in(c) == grammar(),
        families_in(c) == family_table(),
    ensures
        r matches Ok(m) ==> clap_reads(options_in(c), families_in(c), contents(line@)) == Some(
            (family_in(m), values_in(m)),
        ),
        r matches Ok(m) ==> forall|i: int|
            0 <= i < options_in(c).len() ==> values_in(m).dom().contains(
                (#[trigger] options_in(c)[i]).name,
            ),
        r is Err ==> clap_reads(options_in(c), families_in(c), contents(line@)) is None,
        r matches Err(e) ==> (e.0@, e.1) == clap_refuses(
            texts_in(c),
            options_in(c),
            families_in(c),
            contents(line@),
        ),
{
    c.try_get_matches_from(line).map_err(|e| (e.to_string(), e.exit_code()))
}

/// The command with one more option, added as its kind says.
fn add_option(c: Command, o: &Opt) -> (r: Command)
    ensures
        texts_in(r) == texts_in(c),
        options_in(r) == options_in(c).push(shape_of(*o)),
        families_in(r) == families_in(c),
{
    match o.kind {
        Kind::Flag => with_flag(c, o),
        Kind::Many => with_many(c, o),
        Kind::Text => with_text(c, o),
        Kind::Path => with_path(c, o),
        Kind::Count(least) => with_count(c, o, least),
        Kind::OneOf(choice) => {
            let words = choice.words();
            with_choice(c, o, &words)
        },
    }
}

/// `clap::ArgMatches::get_raw`: the values of an option, those it has by default
/// among them.
#[verifier::external_body]
fn raw_values(m: &ArgMatches, name: &str) -> (r: Vec<String>)
    requires
        values_in(*m).dom().contains(name@),
    ensures
        contents(r@) == values_in(*m)[name@],
{
    m.get_raw(name).into_iter().flatten().map(|v| v.to_string_lossy().into_owned()).collect()
}

/// `clap::ArgMatches::subcommand_name`, of the subcommand's own matches.
#[verifier::external_body]
fn family_name(m: &ArgMatches) -> (r: Option<String>)
    ensures
        crate::report::text_of(r) == family_in(*m),
{
    m.subcommand().and_then(|(_, s)| s.subcommand_name()).map(|f| f.to_string())
}

/// What stood on a line: the measurement family, and the values of every
/// option in the order of the table.
pub struct Parsed {
    pub family: Option<String>,
    pub values: Vec<Vec<String>>,
}

/// The values as values of the contracts.
pub open spec fn values_of(values: Seq<Vec<String>>) -> Seq<Seq<Seq<char>>> {
    values.map_values(|v: Vec<String>| contents(v@))
}

/// The values of every option of the table, in its order.
pub open spec fn in_table_order(values: Map<Seq<char>, Seq<Seq<char>>>) -> Seq<Seq<Seq<char>>> {
    grammar().map_values(|s: Shape| values[s.name])
}

/// Why a line gave no arguments.
#[derive(Debug)]
pub enum ArgsError {
    /// The line does not fit the options.
    Usage(Usage),
    /// An option has a value it does not take.
    Value { option: &'static str, value: String },
}

/// The last value of an option.
pub open spec fn last_of(values: Seq<Seq<Seq<char>>>, i: int) -> Option<Seq<char>> {
    if i < values.len() && values[i].len() > 0 {
        Some(values[i].last())
    } else {
        None
    }
}

/// The value of an option that has a default.
pub open spec fn value_or(values: Seq<Seq<Seq<char>>>, i: int, default: Seq<char>) -> Seq<char> {
    match last_of(values, i) {
        Some(v) => v,
        None => default,
    }
}

/// All values of an option.
pub open spec fn all_of(values: Seq<Seq<Seq<char>>>, i: int) -> Seq<Seq<char>> {
    if i < values.len() {
        values[i]
    } else {
        Seq::empty()
    }
}

/// Whether a flag is set.
pub open spec fn flag_of(values: Seq<Seq<Seq<char>>>, i: int) -> bool {
    last_of(values, i) == Some("true"@)
}

/// Whether a text is a number that fits, of at least `least`.
pub open spec fn counts(text: Seq<char>, least: nat) -> bool {
    number(text) is Some && least <= number(text)->0 <= usize::MAX
}

/// Whether an optional value is a number that fits, if it is there.
pub open spec fn counts_if_any(text: Option<Seq<char>>, least: nat) -> bool {
    text matches Some(t) ==> counts(t, least)
}

/// The number of an optional value.
pub open spec fn count_in(text: Option<Seq<char>>) -> Option<usize> {
    match text {
        Some(t) => Some(number(t)->0 as usize),
        None => None,
    }
}

/// The measurement family of a name.
pub open spec fn family_of(name: Seq<char>) -> Option<MeasureCommand> {
    if name == "encode"@ {
        Some(MeasureCommand::Encode)
    } else if name == "decode"@ {
        Some(MeasureCommand::Decode)
    } else if name == "latency"@ {
        Some(MeasureCommand::Latency)
    } else if name == "scaling"@ {
        Some(MeasureCommand::Scaling)
    } else if name == "memory"@ {
        Some(MeasureCommand::Memory)
    } else {
        None
    }
}

/// Whether option `i` of the table has a value it does not take.
pub open spec fn is_bad(values: Seq<Seq<Seq<char>>>, i: int) -> bool {
    last_of(values, i) matches Some(v) && !takes(grammar()[i].form, v)
}

/// Whether every value is one its option takes.
pub open spec fn is_valid(family: Option<Seq<char>>, values: Seq<Seq<Seq<char>>>) -> bool {
    &&& family matches Some(name) ==> family_of(name) is Some
    &&& forall|i: int| 0 <= i < grammar().len() ==> !#[trigger] is_bad(values, i)
}

/// Whether this is what is wrong with values: the family where there is no such
/// one, else the first option of the table with a value it does not take.
pub open spec fn is_fault(
    family: Option<Seq<char>>,
    values: Seq<Seq<Seq<char>>>,
    option: Seq<char>,
    value: Seq<char>,
) -> bool {
    if family is Some && family_of(family->0) is None {
        option == "measure"@ && value == family->0
    } else {
        exists|i: int|
            {
                &&& 0 <= i < grammar().len()
                &&& #[trigger] is_bad(values, i)
                &&& forall|k: int| 0 <= k < i ==> !#[trigger] is_bad(values, k)
                &&& option == grammar()[i].name
                &&& value == last_of(values, i)->0
            }
    }
}

/// Whether these are the arguments that the values stand for.
pub open spec fn are_args(
    family: Option<Seq<char>>,
    values: Seq<Seq<Seq<char>>>,
    a: Args,
) -> bool {
    &&& a.command == (match family {
        Some(name) => Some(CliCommand::Measure { command: family_of(name)->0 }),
        None => None,
    })
    &&& a.models@ == value_or(values, 0, "data/models"@)
    &&& a.corpora@ == value_or(values, 1, "data/fixtures"@)
    &&& a.reps == number(value_or(values, 2, "5"@))->0
    &&& a.no_warmup == flag_of(values, 3)
    &&& a.cache_capacity == count_in(last_of(values, 4))
    &&& contents(a.engine@) == all_of(values, 5)
    &&& crate::report::text_of(a.compare_to) == last_of(values, 6)
    &&& contents(a.model@) == all_of(values, 7)
    &&& contents(a.corpus@) == all_of(values, 8)
    &&& a.out@ == value_or(values, 9, "tokenizer_bench_results.json"@)
    &&& a.open == flag_of(values, 10)
    &&& a.python@ == value_or(values, 11, "python3"@)
    &&& a.no_memory == flag_of(values, 12)
    &&& a.no_decode == flag_of(values, 13)
    &&& contents(a.latency@) == all_of(values, 14)
    &&& a.latency_bytes == number(value_or(values, 15, "512"@))->0
    &&& a.latency_samples == number(value_or(values, 16, "1000"@))->0
    &&& contents(a.scaling@) == all_of(values, 17)
    &&& a.max_threads == count_in(last_of(values, 18))
    &&& a.threads == number(value_or(values, 19, "1"@))->0
    &&& a.reverse_scaling == flag_of(values, 20)
    &&& a.scaling_mode@ == value_or(values, 21, "auto"@)
    &&& a.padding@ == value_or(values, 22, "both"@)
    &&& a.binary_sizes@ == value_or(values, 23, "binary_sizes.json"@)
    &&& a.package_sizes@ == value_or(values, 24, "package_sizes.json"@)
    &&& crate::report::text_of(a.memory) == last_of(values, 25)
    &&& crate::report::text_of(a.memory_model) == last_of(values, 26)
    &&& crate::report::text_of(a.memory_corpus) == last_of(values, 27)
    &&& a.memory_threads == count_in(last_of(values, 28))
}

/// Arguments are well formed: what must not be zero is not.
pub open spec fn well_formed(a: Args) -> bool {
    &&& a.threads > 0
    &&& a.max_threads matches Some(n) ==> n > 0
    &&& a.memory_threads matches Some(n) ==> n > 0
    &&& Choice::ScalingMode.listed().contains(a.scaling_mode@)
    &&& Choice::Padding.listed().contains(a.padding@)
    &&& a.models@.len() > 0 && a.corpora@.len() > 0 && a.out@.len() > 0
    &&& a.binary_sizes@.len() > 0 && a.package_sizes@.len() > 0
}

fn find_last(values: &Vec<Vec<String>>, i: usize) -> (r: Option<String>)
    ensures
        crate::report::text_of(r) == last_of(values_of(values@), i as int),
{
    if i < values.len() && values[i].len() > 0 {
        let v = &values[i];
        assert(values_of(values@)[i as int] == contents(v@));
        Some(v[v.len() - 1].clone())
    } else {
        if i < values.len() {
            assert(values_of(values@)[i as int] == contents(values@[i as int]@));
        }
        None
    }
}

fn find_or(values: &Vec<Vec<String>>, i: usize, default: &str) -> (r: String)
    ensures
        r@ == value_or(values_of(values@), i as int, default@),
{
    match find_last(values, i) {
        Some(v) => v,
        None => default.to_owned(),
    }
}

fn find_all(values: &Vec<Vec<String>>, i: usize) -> (r: Vec<String>)
    ensures
        contents(r@) == all_of(values_of(values@), i as int),
{
    let mut r: Vec<String> = Vec::new();
    if i < values.len() {
        let v = &values[i];
        assert(values_of(values@)[i as int] == contents(v@));
        let mut k: usize = 0;
        while k < v.len()
            invariant
                k <= v@.len(),
                contents(r@) =~= contents(v@).take(k as int),
            decreases v@.len() - k,
        {
            let ghost was = contents(r@);
            r.push(v[k].clone());
            assert(contents(r@) =~= was.push(contents(v@)[k as int]));
            k = k + 1;
        }
        assert(contents(v@).take(v@.len() as int) =~= contents(v@));
    } else {
        assert(contents(r@) =~= Seq::empty());
    }
    r
}

fn find_flag(values: &Vec<Vec<String>>, i: usize) -> (r: bool)
    ensures
        r == flag_of(values_of(values@), i as int),
{
    match find_last(values, i) {
        Some(v) => same(v.as_str(), "true"),
        None => false,
    }
}

/// The first option of the table with a value it does not take.
fn find_bad(values: &Vec<Vec<String>>, table: &Vec<Opt>) -> (r: Option<(usize, String)>)
    requires
        shapes(table@) == grammar(),
    ensures
        match r {
            Some((i, v)) => i < table@.len() && is_bad(values_of(values@), i as int) && v@
                == last_of(values_of(values@), i as int)->0 && forall|k: int|
                0 <= k < i ==> !#[trigger] is_bad(values_of(values@), k),
            None => forall|k: int|
                0 <= k < grammar().len() ==> !#[trigger] is_bad(values_of(values@), k),
        },
{
    let mut i: usize = 0;
    while i < table.len()
        invariant
            i <= table@.len(),
            shapes(table@) == grammar(),
            forall|k: int| 0 <= k < i ==> !#[trigger] is_bad(values_of(values@), k),
        decreases table@.len() - i,
    {
        assert(shapes(table@)[i as int] == shape_of(table@[i as int]));
        if let Some(v) = find_last(values, i) {
            if !is_taken(table[i].kind, v.as_str()) {
                return Some((i, v));
            }
        }
        i = i + 1;
    }
    assert(shapes(table@).len() == table@.len());
    None
}

/// The number of a value that is one.
fn count_of(text: &str) -> (n: usize)
    requires
        counts(text@, 0),
    ensures
        number(text@) == Some(n as nat),
{
    match parse_usize(text) {
        Some(n) => n,
        None => 0,
    }
}

/// The number of a value that is one, if it is there.
fn count_if_any(text: &Option<String>) -> (r: Option<usize>)
    requires
        counts_if_any(crate::report::text_of(*text), 0),
    ensures
        r == count_in(crate::report::text_of(*text)),
{
    match text {
        Some(t) => Some(count_of(t.as_str())),
        None => None,
    }
}

/// The texts that options have by default are ones they take.
proof fn lemma_defaults()
    ensures
        number("5"@) == Some(5nat),
        number("512"@) == Some(512nat),
        number("1000"@) == Some(1000nat),
        number("1"@) == Some(1nat),
        Choice::ScalingMode.listed().contains("auto"@),
        Choice::Padding.listed().contains("both"@),
        "data/models"@.len() > 0,
        "data/fixtures"@.len() > 0,
        "tokenizer_bench_results.json"@.len() > 0,
        "binary_sizes.json"@.len() > 0,
        "package_sizes.json"@.len() > 0,
{
    reveal_strlit("5");
    reveal_strlit("512");
    reveal_strlit("1000");
    reveal_strlit("1");
    reveal_strlit("data/models");
    reveal_strlit("data/fixtures");
    reveal_strlit("tokenizer_bench_results.json");
    reveal_strlit("binary_sizes.json");
    reveal_strlit("package_sizes.json");
    reveal_with_fuel(digits_value, 6);
    assert("512"@.drop_last() =~= seq!['5', '1']);
    assert(seq!['5', '1'].drop_last() =~= seq!['5']);
    assert("1000"@.drop_last() =~= seq!['1', '0', '0']);
    assert(seq!['1', '0', '0'].drop_last() =~= seq!['1', '0']);
    assert(seq!['1', '0'].drop_last() =~= seq!['1']);
    lemma_three(Choice::ScalingMode.listed(), "auto"@);
    lemma_three(Choice::Padding.listed(), "both"@);
}

fn read_family(name: &str) -> (r: Option<MeasureCommand>)
    ensures
        r == family_of(name@),
{
    if same(name, "encode") {
        Some(MeasureCommand::Encode)
    } else if same(name, "decode") {
        Some(MeasureCommand::Decode)
    } else if same(name, "latency") {
        Some(MeasureCommand::Latency)
    } else if same(name, "scaling") {
        Some(MeasureCommand::Scaling)
    } else if same(name, "memory") {
        Some(MeasureCommand::Memory)
    } else {
        None
    }
}

/// The arguments that what stood on a line stands for, or the option whose
/// value it does not take.
pub fn args_of(p: &Parsed) -> (r: Result<Args, ArgsError>)
    ensures
        r is Ok <==> is_valid(crate::report::text_of(p.family), values_of(p.values@)),
        r matches Ok(a) ==> are_args(crate::report::text_of(p.family), values_of(p.values@), a)
            && well_formed(a),
        r matches Err(e) ==> e matches ArgsError::Value { option, value } && is_fault(
            crate::report::text_of(p.family),
            values_of(p.values@),
            option@,
            value@,
        ),
{
    let values = &p.values;
    let command = match &p.family {
        Some(name) => match read_family(name.as_str()) {
            Some(command) => Some(CliCommand::Measure { command }),
            None => {
                return Err(ArgsError::Value { option: "measure", value: name.clone() });
            },
        },
        None => None,
    };
    let table = options();
    if let Some((i, value)) = find_bad(values, &table) {
        assert(shapes(table@)[i as int] == shape_of(table@[i as int]));
        return Err(ArgsError::Value { option: table[i].name, value });
    }
    proof {
        lemma_defaults();
        let v = values_of(p.values@);
        assert(!is_bad(v, 0) && !is_bad(v, 1) && !is_bad(v, 2) && !is_bad(v, 4) && !is_bad(v, 9)
            && !is_bad(v, 15) && !is_bad(v, 16) && !is_bad(v, 18) && !is_bad(v, 19) && !is_bad(
            v,
            21,
        ) && !is_bad(v, 22) && !is_bad(v, 23) && !is_bad(v, 24) && !is_bad(v, 28));
    }
    Ok(
        Args {
            command,
            models: find_or(values, 0, "data/models"),
            corpora: find_or(values, 1, "data/fixtures"),
            reps: count_of(find_or(values, 2, "5").as_str()),
            no_warmup: find_flag(values, 3),
            cache_capacity: count_if_any(&find_last(values, 4)),
            engine: find_all(values, 5),
            compare_to: find_last(values, 6),
            model: find_all(values, 7),
            corpus: find_all(values, 8),
            out: find_or(values, 9, "tokenizer_bench_results.json"),
            open: find_flag(values, 10),
            python: find_or(values, 11, "python3"),
            no_memory: find_flag(values, 12),
            no_decode: find_flag(values, 13),
            latency: find_all(values, 14),
            latency_bytes: count_of(find_or(values, 15, "512").as_str()),
            latency_samples: count_of(find_or(values, 16, "1000").as_str()),
            scaling: find_all(values, 17),
            max_threads: count_if_any(&find_last(values, 18)),
            threads: count_of(find_or(values, 19, "1").as_str()),
            reverse_scaling: find_flag(values, 20),
            scaling_mode: find_or(values, 21, "auto"),
            padding: find_or(values, 22, "both"),
            binary_sizes: find_or(values, 23, "binary_sizes.json"),
            package_sizes: find_or(values, 24, "package_sizes.json"),
            memory: find_last(values, 25),
            memory_model: find_last(values, 26),
            memory_corpus: find_last(values, 27),
            memory_threads: count_if_any(&find_last(values, 28)),
        },
    )
}

/// What a line reads as: the family, and the values of every option in the order
/// of the table.
pub open spec fn reading(line: Seq<Seq<char>>) -> Option<(
    Option<Seq<char>>,
    Seq<Seq<Seq<char>>>,
)> {
    match clap_reads(grammar(), family_table(), line) {
        Some((family, values)) => Some((family, in_table_order(values))),
        None => None,
    }
}

/// What a line that is refused is answered with: the text and the exit code.
pub open spec fn refusal_of(line: Seq<Seq<char>>) -> (Seq<char>, i32) {
    clap_refuses(seq!["tokbench"@, ABOUT@], grammar(), family_table(), line)
}

fn collect(m: &ArgMatches, table: &Vec<Opt>) -> (p: Parsed)
    requires
        shapes(table@) == grammar(),
        forall|i: int|
            0 <= i < shapes(table@).len() ==> values_in(*m).dom().contains(
                (#[trigger] shapes(table@)[i]).name,
            ),
    ensures
        crate::report::text_of(p.family) == family_in(*m),
        values_of(p.values@) == in_table_order(values_in(*m)),
{
    let family = family_name(m);
    let mut values: Vec<Vec<String>> = Vec::new();
    let mut i: usize = 0;
    while i < table.len()
        invariant
            i <= table@.len(),
            shapes(table@) == grammar(),
            forall|i: int|
                0 <= i < shapes(table@).len() ==> values_in(*m).dom().contains(
                    (#[trigger] shapes(table@)[i]).name,
                ),
            values@.len() == i,
            forall|k: int|
                0 <= k < i ==> contents((#[trigger] values@[k])@) == values_in(*m)[shapes(
                    table@,
                )[k].name],
        decreases table@.len() - i,
    {
        assert(shapes(table@)[i as int].name == table@[i as int].name@);
        values.push(raw_values(m, table[i].name));
        i = i + 1;
    }
    assert(values_of(values@) =~= in_table_order(values_in(*m)));
    Parsed { family, values }
}

impl Args {
    /// Reads a line, the program's name first.
    pub fn try_parse_from(line: &[&str]) -> (r: Result<Args, ArgsError>)
        ensures
            match reading(batch_texts(line@)) {
                Some((family, values)) => {
                    &&& r is Ok <==> is_valid(family, values)
                    &&& r matches Ok(a) ==> are_args(family, values, a) && well_formed(a)
                    &&& r matches Err(e) ==> e matches ArgsError::Value { option, value }
                        && is_fault(family, values, option@, value@)
                },
                None => r matches Err(e) && e matches ArgsError::Usage(u) && (u.text@, u.code)
                    == refusal_of(batch_texts(line@)),
            },
    {
        let mut words: Vec<String> = Vec::new();
        let mut i: usize = 0;
        while i < line.len()
            invariant
                i <= line@.len(),
                contents(words@) =~= batch_texts(line@).take(i as int),
            decreases line@.len() - i,
        {
            let ghost was = contents(words@);
            words.push(line[i].to_owned());
            assert(contents(words@) =~= was.push(line@[i as int]@));
            i = i + 1;
        }
        assert(batch_texts(line@).take(line@.len() as int)
            =~= batch_texts(line@));
        let table = options();
        let mut command = bare_command("tokbench", ABOUT);
        let mut k: usize = 0;
        while k < table.len()
            invariant
                k <= table@.len(),
                texts_in(command) == seq!["tokbench"@, ABOUT@],
                options_in(command) =~= shapes(table@).take(k as int),
                families_in(command).len() == 0,
            decreases table@.len() - k,
        {
            command = add_option(command, &table[k]);
            k = k + 1;
        }
        assert(shapes(table@).take(table@.len() as int) =~= shapes(table@));
        let group = families();
        assert(named("measure"@, MEASURE_ABOUT@, group@).len() == group@.len());
        command = with_group(command, "measure", MEASURE_ABOUT, &group);
        match read_line(command, &words) {
            Ok(m) => args_of(&collect(&m, &table)),
            Err((text, code)) => Err(ArgsError::Usage(Usage { text, code })),
        }
    }
}

// ---------------------------------------------------------------------------
// What the answers are
// ---------------------------------------------------------------------------

/// The families are told apart in words, and the words of a choice are its own.
pub proof fn law_words_of_the_line(
    command: MeasureCommand,
    label: &'static str,
    modes: Vec<&'static str>,
    paddings: Vec<&'static str>,
)
    requires
        call_ensures(MeasureCommand::as_str, (command,), label),
        call_ensures(Choice::words, (Choice::ScalingMode,), modes),
        call_ensures(Choice::words, (Choice::Padding,), paddings),
    ensures
        command is Encode ==> label@ == "encode"@,
        command is Decode ==> label@ == "decode"@,
        command is Latency ==> label@ == "latency"@,
        command is Scaling ==> label@ == "scaling"@,
        command is Memory ==> label@ == "memory"@,
        modes@.len() == 3 && modes@[0]@ == "auto"@ && modes@[1]@ == "native-threads"@ && modes@[2]@
            == "independent-instances"@,
        paddings@.len() == 3 && paddings@[0]@ == "off"@ && paddings@[1]@ == "longest"@
            && paddings@[2]@ == "both"@,
{
    let (m, q) = (batch_texts(modes@), batch_texts(paddings@));
    assert(m.len() == modes@.len() && q.len() == paddings@.len());
    assert(m[0] == modes@[0]@ && m[1] == modes@[1]@ && m[2] == modes@[2]@);
    assert(q[0] == paddings@[0]@ && q[1] == paddings@[1]@ && q[2] == paddings@[2]@);
}

/// A number is read as it is anywhere else, and is refused where it is below the least
/// that is taken; what is said then goes by what is wrong.
pub proof fn law_numbers_on_the_line(
    text: &str,
    least: usize,
    r: Result<usize, String>,
    n: Option<usize>,
    f: Result<u64, Fault>,
    why: &'static str,
)
    requires
        call_ensures(read_number, (text, least), r),
        call_ensures(parse_usize, (text,), n),
        text@.len() > 0 ==> call_ensures(parse_within, (text, usize::MAX as u64), f),
        f is Err ==> call_ensures(Fault::as_str, (f->Err_0,), why),
    ensures
        r is Ok <==> n is Some && n->0 >= least,
        r is Ok ==> r->Ok_0 == n->0,
        text@.len() == 0 ==> r is Err && r->Err_0@ == "cannot parse integer from empty string"@,
        text@.len() > 0 && n is None ==> r is Err && r->Err_0@ == why@,
        n is Some && n->0 < least ==> r is Err && r->Err_0@
            == "number would be zero for non-zero type"@,
{
    lemma_within(text@, usize::MAX as nat);
    if text@.len() == 0 {
        assert(number(text@) is None);
    }
}

/// Whether an option has this name, takes what is of this kind, may stand behind the
/// subcommand, is left out of the help, and has this default.
pub open spec fn is_option(
    o: Opt,
    name: Seq<char>,
    kind: Kind,
    global: bool,
    hidden: bool,
    default: Option<Seq<char>>,
) -> bool {
    &&& o.name@ == name
    &&& o.kind == kind
    &&& o.global == global && o.hidden == hidden
    &&& chars_in(o.default) == default
}

proof fn lemma_forms(a: Kind, b: Kind)
    requires
        a.form() == b.form(),
    ensures
        a == b,
{
    if a is OneOf {
        reveal_strlit("auto");
        reveal_strlit("off");
        let (x, y) = (a->OneOf_0, b->OneOf_0);
        assert(x.listed() == y.listed());
        assert(Choice::ScalingMode.listed()[0] == "auto"@);
        assert(Choice::Padding.listed()[0] == "off"@);
        assert("auto"@.len() != "off"@.len());
    }
}

/// The options of the program, each with what it takes and what it is by default.
pub proof fn law_options_of_the_program(list: Vec<Opt>)
    requires
        call_ensures(options, (), list),
    ensures
        list@.len() == 29,
        is_option(list@[0], "models"@, Kind::Path, true, false, Some("data/models"@)),
        is_option(list@[1], "corpora"@, Kind::Path, true, false, Some("data/fixtures"@)),
        is_option(list@[2], "reps"@, Kind::Count(0), true, false, Some("5"@)),
        is_option(list@[3], "no-warmup"@, Kind::Flag, true, false, None),
        is_option(list@[4], "cache-capacity"@, Kind::Count(0), true, false, None),
        is_option(list@[5], "engine"@, Kind::Many, true, false, None),
        is_option(list@[6], "compare-to"@, Kind::Text, true, false, None),
        is_option(list@[7], "model"@, Kind::Many, true, false, None),
        is_option(list@[8], "corpus"@, Kind::Many, true, false, None),
        is_option(list@[9], "out"@, Kind::Path, true, false, Some("tokenizer_bench_results.json"@)),
        is_option(list@[10], "open"@, Kind::Flag, true, false, None),
        is_option(list@[11], "python"@, Kind::Text, true, false, Some("python3"@)),
        is_option(list@[12], "no-memory"@, Kind::Flag, true, false, None),
        is_option(list@[13], "no-decode"@, Kind::Flag, true, false, None),
        is_option(list@[14], "latency"@, Kind::Many, false, false, None),
        is_option(list@[15], "latency-bytes"@, Kind::Count(0), true, false, Some("512"@)),
        is_option(list@[16], "latency-samples"@, Kind::Count(0), true, false, Some("1000"@)),
        is_option(list@[17], "scaling"@, Kind::Many, false, false, None),
        is_option(list@[18], "max-threads"@, Kind::Count(1), true, false, None),
        is_option(list@[19], "threads"@, Kind::Count(1), true, false, Some("1"@)),
        is_option(list@[20], "reverse-scaling"@, Kind::Flag, true, false, None),
        is_option(list@[21], "scaling-mode"@, Kind::OneOf(Choice::ScalingMode), true, false, Some("auto"@)),
        is_option(list@[22], "padding"@, Kind::OneOf(Choice::Padding), true, false, Some("both"@)),
        is_option(list@[23], "binary-sizes"@, Kind::Path, false, false, Some("binary_sizes.json"@)),
        is_option(list@[24], "package-sizes"@, Kind::Path, false, false, Some("package_sizes.json"@)),
        is_option(list@[25], "memory"@, Kind::Text, false, true, None),
        is_option(list@[26], "memory-model"@, Kind::Path, false, true, None),
        is_option(list@[27], "memory-corpus"@, Kind::Path, false, true, None),
        is_option(list@[28], "memory-threads"@, Kind::Count(1), false, true, None),
{
    assert(shapes(list@).len() == list@.len());
    assert(grammar().len() == 29);
    assert forall|i: int| 0 <= i < 29 implies shape_of(#[trigger] list@[i]) == grammar()[i] by {
        assert(shapes(list@)[i] == shape_of(list@[i]));
    }
    lemma_forms(list@[0].kind, Kind::Path);
    lemma_forms(list@[1].kind, Kind::Path);
    lemma_forms(list@[2].kind, Kind::Count(0));
    lemma_forms(list@[3].kind, Kind::Flag);
    lemma_forms(list@[4].kind, Kind::Count(0));
    lemma_forms(list@[5].kind, Kind::Many);
    lemma_forms(list@[6].kind, Kind::Text);
    lemma_forms(list@[7].kind, Kind::Many);
    lemma_forms(list@[8].kind, Kind::Many);
    lemma_forms(list@[9].kind, Kind::Path);
    lemma_forms(list@[10].kind, Kind::Flag);
    lemma_forms(list@[11].kind, Kind::Text);
    lemma_forms(list@[12].kind, Kind::Flag);
    lemma_forms(list@[13].kind, Kind::Flag);
    lemma_forms(list@[14].kind, Kind::Many);
    lemma_forms(list@[15].kind, Kind::Count(0));
    lemma_forms(list@[16].kind, Kind::Count(0));
    lemma_forms(list@[17].kind, Kind::Many);
    lemma_forms(list@[18].kind, Kind::Count(1));
    lemma_forms(list@[19].kind, Kind::Count(1));
    lemma_forms(list@[20].kind, Kind::Flag);
    lemma_forms(list@[21].kind, Kind::OneOf(Choice::ScalingMode));
    lemma_forms(list@[22].kind, Kind::OneOf(Choice::Padding));
    lemma_forms(list@[23].kind, Kind::Path);
    lemma_forms(list@[24].kind, Kind::Path);
    lemma_forms(list@[25].kind, Kind::Text);
    lemma_forms(list@[26].kind, Kind::Path);
    lemma_forms(list@[27].kind, Kind::Path);
    lemma_forms(list@[28].kind, Kind::Count(1));
}

/// Whether an option has a value on a line, and the last one is this.
pub open spec fn says(values: Seq<Vec<String>>, i: int, text: Seq<char>) -> bool {
    i < values.len() && values[i]@.len() > 0 && values[i]@.last()@ == text
}

/// Whether an option has no value on a line.
pub open spec fn is_silent(values: Seq<Vec<String>>, i: int) -> bool {
    i >= values.len() || values[i]@.len() == 0
}

/// Whether a text is what was said, or the default where nothing was.
pub open spec fn holds_text(
    values: Seq<Vec<String>>,
    i: int,
    default: Seq<char>,
    text: Seq<char>,
) -> bool {
    says(values, i, text) || (is_silent(values, i) && text == default)
}

/// Whether a text is what was said, and is missing where nothing was.
pub open spec fn holds_text_if_any(
    values: Seq<Vec<String>>,
    i: int,
    text: Option<String>,
) -> bool {
    (text is Some && says(values, i, text->0@)) || (text is None && is_silent(values, i))
}

/// Whether a number is the one that was written, or the default where none was.
pub open spec fn holds_number(
    values: Seq<Vec<String>>,
    i: int,
    default: Option<nat>,
    n: Option<usize>,
) -> bool {
    ||| is_silent(values, i) && (n is Some <==> default is Some) && (n is Some ==> n->0
        == default->0)
    ||| n is Some && !is_silent(values, i) && number(values[i]@.last()@) == Some(n->0 as nat)
}

/// Whether a switch is on exactly where that was said.
pub open spec fn holds_flag(values: Seq<Vec<String>>, i: int, flag: bool) -> bool {
    flag <==> says(values, i, "true"@)
}

/// Whether a list is all that was said, in its order.
pub open spec fn holds_all(values: Seq<Vec<String>>, i: int, list: Seq<String>) -> bool {
    &&& i >= values.len() ==> list.len() == 0
    &&& i < values.len() ==> list.len() == values[i]@.len() && forall|k: int|
        0 <= k < list.len() ==> (#[trigger] list[k])@ == values[i]@[k]@
}

proof fn lemma_last_said(values: Seq<Vec<String>>, i: int)
    requires
        0 <= i,
    ensures
        is_silent(values, i) <==> last_of(values_of(values), i) is None,
        !is_silent(values, i) ==> last_of(values_of(values), i) == Some(values[i]@.last()@),
        i < values.len() ==> all_of(values_of(values), i) == contents(values[i]@),
        i >= values.len() ==> all_of(values_of(values), i).len() == 0,
{
    if i < values.len() {
        let c = contents(values[i]@);
        assert(values_of(values)[i] == c);
        assert(c.len() == values[i]@.len());
        if c.len() > 0 {
            assert(c.last() == values[i]@.last()@);
        }
    }
}

proof fn lemma_all_said(values: Seq<Vec<String>>, i: int, list: Seq<String>)
    requires
        0 <= i,
        contents(list) == all_of(values_of(values), i),
    ensures
        holds_all(values, i, list),
{
    lemma_last_said(values, i);
    assert(contents(list).len() == list.len());
    if i < values.len() {
        assert(contents(values[i]@).len() == values[i]@.len());
        assert forall|k: int| 0 <= k < list.len() implies (#[trigger] list[k])@
            == values[i]@[k]@ by {
            assert(contents(list)[k] == list[k]@);
            assert(contents(values[i]@)[k] == values[i]@[k]@);
        }
    }
}

/// Every argument is what stands on the line behind the option of its own name; the last
/// where it stands several times, unless all are wanted; and the default where it does not
/// stand there.
pub proof fn law_arguments_go_by_their_options(p: &Parsed, a: Args)
    requires
        call_ensures(args_of, (p,), Ok(a)),
    ensures
        holds_text(p.values@, 0, "data/models"@, a.models@),
        holds_text(p.values@, 1, "data/fixtures"@, a.corpora@),
        holds_number(p.values@, 2, Some(5), Some(a.reps)),
        holds_flag(p.values@, 3, a.no_warmup),
        holds_number(p.values@, 4, None, a.cache_capacity),
        holds_all(p.values@, 5, a.engine@),
        holds_text_if_any(p.values@, 6, a.compare_to),
        holds_all(p.values@, 7, a.model@),
        holds_all(p.values@, 8, a.corpus@),
        holds_text(p.values@, 9, "tokenizer_bench_results.json"@, a.out@),
        holds_flag(p.values@, 10, a.open),
        holds_text(p.values@, 11, "python3"@, a.python@),
        holds_flag(p.values@, 12, a.no_memory),
        holds_flag(p.values@, 13, a.no_decode),
        holds_all(p.values@, 14, a.latency@),
        holds_number(p.values@, 15, Some(512), Some(a.latency_bytes)),
        holds_number(p.values@, 16, Some(1000), Some(a.latency_samples)),
        holds_all(p.values@, 17, a.scaling@),
        holds_number(p.values@, 18, None, a.max_threads),
        holds_number(p.values@, 19, Some(1), Some(a.threads)),
        holds_flag(p.values@, 20, a.reverse_scaling),
        holds_text(p.values@, 21, "auto"@, a.scaling_mode@),
        holds_text(p.values@, 22, "both"@, a.padding@),
        holds_text(p.values@, 23, "binary_sizes.json"@, a.binary_sizes@),
        holds_text(p.values@, 24, "package_sizes.json"@, a.package_sizes@),
        holds_text_if_any(p.values@, 25, a.memory),
        holds_text_if_any(p.values@, 26, a.memory_model),
        holds_text_if_any(p.values@, 27, a.memory_corpus),
        holds_number(p.values@, 28, None, a.memory_threads),
{
    let v = values_of(p.values@);
    lemma_defaults();
    assert(is_valid(crate::report::text_of(p.family), v));
    assert(!is_bad(v, 2) && !is_bad(v, 4) && !is_bad(v, 15) && !is_bad(v, 16));
    assert(!is_bad(v, 18) && !is_bad(v, 19) && !is_bad(v, 28));
    lemma_last_said(p.values@, 0);
    lemma_last_said(p.values@, 1);
    lemma_last_said(p.values@, 2);
    lemma_last_said(p.values@, 3);
    lemma_last_said(p.values@, 4);
    lemma_all_said(p.values@, 5, a.engine@);
    lemma_last_said(p.values@, 6);
    lemma_all_said(p.values@, 7, a.model@);
    lemma_all_said(p.values@, 8, a.corpus@);
    lemma_last_said(p.values@, 9);
    lemma_last_said(p.values@, 10);
    lemma_last_said(p.values@, 11);
    lemma_last_said(p.values@, 12);
    lemma_last_said(p.values@, 13);
    lemma_all_said(p.values@, 14, a.latency@);
    lemma_last_said(p.values@, 15);
    lemma_last_said(p.values@, 16);
    lemma_all_said(p.values@, 17, a.scaling@);
    lemma_last_said(p.values@, 18);
    lemma_last_said(p.values@, 19);
    lemma_last_said(p.values@, 20);
    lemma_last_said(p.values@, 21);
    lemma_last_said(p.values@, 22);
    lemma_last_said(p.values@, 23);
    lemma_last_said(p.values@, 24);
    lemma_last_said(p.values@, 25);
    lemma_last_said(p.values@, 26);
    lemma_last_said(p.values@, 27);
    lemma_last_said(p.values@, 28);
}

/// The family is the one that is named, and a full run is one that names none.
pub proof fn law_family_is_the_one_named(p: &Parsed, r: Result<Args, ArgsError>)
    requires
        call_ensures(args_of, (p,), r),
    ensures
        r is Ok && p.family is None ==> r->Ok_0.command is None,
        r is Ok && p.family is Some ==> {
            let name = p.family->0@;
            &&& r->Ok_0.command is Some
            &&& match r->Ok_0.command->0 {
                CliCommand::Measure { command } => {
                    &&& name == "encode"@ ==> command is Encode
                    &&& name == "decode"@ ==> command is Decode
                    &&& name == "latency"@ ==> command is Latency
                    &&& name == "scaling"@ ==> command is Scaling
                    &&& name == "memory"@ ==> command is Memory
                },
            }
            &&& name == "encode"@ || name == "decode"@ || name == "latency"@ || name == "scaling"@
                || name == "memory"@
        },
        p.family is Some && p.family->0@ != "encode"@ && p.family->0@ != "decode"@ && p.family->0@
            != "latency"@ && p.family->0@ != "scaling"@ && p.family->0@ != "memory"@ ==> r is Err
            && r->Err_0 is Value && r->Err_0->option@ == "measure"@ && r->Err_0->value@
            == p.family->0@,
{
    reveal_strlit("encode");
    reveal_strlit("decode");
    reveal_strlit("latency");
    reveal_strlit("scaling");
    reveal_strlit("memory");
    assert("encode"@[0] == 'e' && "decode"@[0] == 'd' && "latency"@[0] == 'l');
    assert("scaling"@[0] == 's' && "memory"@[0] == 'm');
}

/// Whether a value is one that an option of this kind takes: a path that is not empty, a
/// number that fits and is not below the least, or one of the words.
pub open spec fn is_good(kind: Kind, text: Seq<char>) -> bool {
    &&& kind is Path ==> text.len() > 0
    &&& kind is Count ==> number(text) is Some && kind->Count_0 <= number(text)->0 <= usize::MAX
    &&& kind == Kind::OneOf(Choice::ScalingMode) ==> text == "auto"@ || text == "native-threads"@
        || text == "independent-instances"@
    &&& kind == Kind::OneOf(Choice::Padding) ==> text == "off"@ || text == "longest"@ || text
        == "both"@
}

/// Whether what an option has on a line is good.
pub open spec fn is_fine(list: Seq<Opt>, values: Seq<Vec<String>>, i: int) -> bool {
    is_silent(values, i) || is_good(list[i].kind, values[i]@.last()@)
}

proof fn lemma_fine(list: Seq<Opt>, values: Seq<Vec<String>>, i: int)
    requires
        shapes(list) == grammar(),
        0 <= i < list.len(),
    ensures
        is_fine(list, values, i) <==> !is_bad(values_of(values), i),
{
    lemma_last_said(values, i);
    assert(shapes(list)[i] == shape_of(list[i]));
    if !is_silent(values, i) {
        let text = values[i]@.last()@;
        lemma_three(Choice::ScalingMode.listed(), text);
        lemma_three(Choice::Padding.listed(), text);
    }
}

/// A line is taken exactly where its family is one that there is, if it has one, and every
/// option's value is one that the option takes. Where it is not, the first option that is
/// wrong is named, with its value.
pub proof fn law_values_are_checked(p: &Parsed, r: Result<Args, ArgsError>, list: Vec<Opt>, i: int)
    requires
        call_ensures(args_of, (p,), r),
        call_ensures(options, (), list),
        p.family is None || p.family->0@ == "encode"@ || p.family->0@ == "decode"@ || p.family->0@
            == "latency"@ || p.family->0@ == "scaling"@ || p.family->0@ == "memory"@,
        0 <= i <= list@.len(),
        forall|k: int| 0 <= k < i ==> #[trigger] is_fine(list@, p.values@, k),
        i < list@.len() ==> !is_fine(list@, p.values@, i),
    ensures
        i == list@.len() ==> r is Ok,
        i < list@.len() ==> r is Err && r->Err_0 is Value && r->Err_0->option@ == list@[i].name@
            && r->Err_0->value@ == p.values@[i]@.last()@,
{
    let v = values_of(p.values@);
    assert(shapes(list@).len() == list@.len());
    assert forall|k: int| 0 <= k < i implies !#[trigger] is_bad(v, k) by {
        assert(is_fine(list@, p.values@, k));
        lemma_fine(list@, p.values@, k);
    }
    if i < list@.len() {
        lemma_fine(list@, p.values@, i);
        lemma_last_said(p.values@, i);
        assert(is_bad(v, i));
        assert(shapes(list@)[i] == shape_of(list@[i]));
        let family = crate::report::text_of(p.family);
        assert(!is_valid(family, v));
        let (option, value) = (r->Err_0->option@, r->Err_0->value@);
        let j = choose|j: int|
            {
                &&& 0 <= j < grammar().len()
                &&& #[trigger] is_bad(v, j)
                &&& forall|k: int| 0 <= k < j ==> !#[trigger] is_bad(v, k)
                &&& option == grammar()[j].name
                &&& value == last_of(v, j)->0
            };
        assert(j == i);
    }
}

/// Whether two sets of arguments say the same.
pub open spec fn say_the_same(a: Args, b: Args) -> bool {
    &&& a.command == b.command
    &&& a.models@ == b.models@
    &&& a.corpora@ == b.corpora@
    &&& a.reps == b.reps
    &&& a.no_warmup == b.no_warmup
    &&& a.cache_capacity == b.cache_capacity
    &&& contents(a.engine@) == contents(b.engine@)
    &&& crate::report::text_of(a.compare_to) == crate::report::text_of(b.compare_to)
    &&& contents(a.model@) == contents(b.model@)
    &&& contents(a.corpus@) == contents(b.corpus@)
    &&& a.out@ == b.out@
    &&& a.open == b.open
    &&& a.python@ == b.python@
    &&& a.no_memory == b.no_memory
    &&& a.no_decode == b.no_decode
    &&& contents(a.latency@) == contents(b.latency@)
    &&& a.latency_bytes == b.latency_bytes
    &&& a.latency_samples == b.latency_samples
    &&& contents(a.scaling@) == contents(b.scaling@)
    &&& a.max_threads == b.max_threads
    &&& a.threads == b.threads
    &&& a.reverse_scaling == b.reverse_scaling
    &&& a.scaling_mode@ == b.scaling_mode@
    &&& a.padding@ == b.padding@
    &&& a.binary_sizes@ == b.binary_sizes@
    &&& a.package_sizes@ == b.package_sizes@
    &&& crate::report::text_of(a.memory) == crate::report::text_of(b.memory)
    &&& crate::report::text_of(a.memory_model) == crate::report::text_of(b.memory_model)
    &&& crate::report::text_of(a.memory_corpus) == crate::report::text_of(b.memory_corpus)
    &&& a.memory_threads == b.memory_threads
}

/// A line that reads as a family and values is taken as these are, and one that does not is
/// answered as its reader answers it.
pub proof fn law_lines_are_taken_as_they_read(
    line: &[&str],
    r: Result<Args, ArgsError>,
    p: &Parsed,
    s: Result<Args, ArgsError>,
)
    requires
        call_ensures(Args::try_parse_from, (line,), r),
        reading(batch_texts(line@)) is Some ==> {
            let (family, values) = reading(batch_texts(line@))->0;
            &&& crate::report::text_of(p.family) == family
            &&& values_of(p.values@) == values
            &&& call_ensures(args_of, (p,), s)
        },
    ensures
        reading(batch_texts(line@)) is Some ==> (r is Ok <==> s is Ok),
        reading(batch_texts(line@)) is Some && r is Ok ==> say_the_same(r->Ok_0, s->Ok_0),
        reading(batch_texts(line@)) is Some && r is Err ==> r->Err_0 is Value && s->Err_0 is Value,
        reading(batch_texts(line@)) is None ==> r is Err && r->Err_0 is Usage && (
        r->Err_0->Usage_0.text@, r->Err_0->Usage_0.code) == refusal_of(batch_texts(line@)),
{
}

/// Every family can be named on a line, behind the word `measure`, and nothing else can.
pub proof fn law_every_family_can_be_named(command: MeasureCommand, label: &'static str, i: int)
    requires
        call_ensures(MeasureCommand::as_str, (command,), label),
    ensures
        exists|k: int|
            0 <= k < family_table().len() && (#[trigger] family_table()[k]).name == label@,
        0 <= i < family_table().len() ==> family_table()[i].group == "measure"@ && exists|
            c: MeasureCommand,
        | #[trigger] c.label() == family_table()[i].name,
{
    let t = family_table();
    assert(t[0].name == "encode"@ && t[1].name == "decode"@ && t[2].name == "latency"@);
    assert(t[3].name == "scaling"@ && t[4].name == "memory"@);
    assert(MeasureCommand::Encode.label() == "encode"@);
    assert(MeasureCommand::Decode.label() == "decode"@);
    assert(MeasureCommand::Latency.label() == "latency"@);
    assert(MeasureCommand::Scaling.label() == "scaling"@);
    assert(MeasureCommand::Memory.label() == "memory"@);
}

}
