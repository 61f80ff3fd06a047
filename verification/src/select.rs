//! What a run does: which passes, which engines and cells, and which requests
//! are refused.

use crate::cli::{Args, CliCommand, MeasureCommand};
use crate::engine::Padding;
use crate::layout::{join, spliced};
use crate::registry::REFERENCE;
use crate::report::text_of;
use crate::scaling::ScalingMode;
use crate::scan::contents;
use crate::text::{chars_of, count_text, decimal, same};
use vstd::prelude::*;
use vstd::string::StringExecFns;

verus! {

// ---------------------------------------------------------------------------
// Passes
// ---------------------------------------------------------------------------

/// The family the program is asked for; none for a full run.
pub open spec fn family(a: Args) -> Option<MeasureCommand> {
    match a.command {
        Some(CliCommand::Measure { command }) => Some(command),
        None => None,
    }
}

/// `family`, computed.
pub fn measurement_of(a: &Args) -> (r: Option<MeasureCommand>)
    ensures
        r == family(*a),
{
    match a.command {
        Some(CliCommand::Measure { command }) => Some(command),
        None => None,
    }
}

/// The passes of a run.
#[derive(Clone, Copy, Debug, PartialEq, Eq)]
pub struct Passes {
    pub encode: bool,
    pub decode: bool,
    pub latency: bool,
    pub scaling: bool,
    /// The footprint and nothing else.
    pub memory_only: bool,
    pub memory: bool,
}

/// A family is one pass and no other. A full run encodes, and decodes and takes
/// the footprint unless told not to.
pub open spec fn passes_of(a: Args) -> Passes {
    let m = family(a);
    Passes {
        encode: m is None || m == Some(MeasureCommand::Encode),
        decode: match m {
            Some(command) => command == MeasureCommand::Decode,
            None => !a.no_decode,
        },
        latency: m == Some(MeasureCommand::Latency),
        scaling: m == Some(MeasureCommand::Scaling),
        memory_only: m == Some(MeasureCommand::Memory),
        memory: m == Some(MeasureCommand::Memory) || (m is None && !a.no_memory),
    }
}

/// `passes_of`, computed.
pub fn passes(a: &Args) -> (r: Passes)
    ensures
        r == passes_of(*a),
{
    match measurement_of(a) {
        Some(command) => Passes {
            encode: command == MeasureCommand::Encode,
            decode: command == MeasureCommand::Decode,
            latency: command == MeasureCommand::Latency,
            scaling: command == MeasureCommand::Scaling,
            memory_only: command == MeasureCommand::Memory,
            memory: command == MeasureCommand::Memory,
        },
        None => Passes {
            encode: true,
            decode: !a.no_decode,
            latency: false,
            scaling: false,
            memory_only: false,
            memory: !a.no_memory,
        },
    }
}

/// A measurement family runs exactly one pass.
pub proof fn law_one_pass_per_family(a: Args)
    requires
        family(a) is Some,
    ensures
        ({
            let p = passes_of(a);
            let command = family(a)->0;
            &&& p.encode == (command == MeasureCommand::Encode)
            &&& p.decode == (command == MeasureCommand::Decode)
            &&& p.latency == (command == MeasureCommand::Latency)
            &&& p.scaling == (command == MeasureCommand::Scaling)
            &&& p.memory == (command == MeasureCommand::Memory)
        }),
{
}

// ---------------------------------------------------------------------------
// Names
// ---------------------------------------------------------------------------

/// Whether a name stands in a list.
pub fn listed(list: &Vec<String>, name: &str) -> (r: bool)
    ensures
        r == contents(list@).contains(name@),
{
    let ghost c = contents(list@);
    let mut i: usize = 0;
    while i < list.len()
        invariant
            i <= list@.len(),
            c == contents(list@),
            forall|k: int| 0 <= k < i ==> #[trigger] c[k] != name@,
        decreases list@.len() - i,
    {
        if same(list[i].as_str(), name) {
            assert(c[i as int] == name@);
            return true;
        }
        i = i + 1;
    }
    false
}

/// Whether a name is wanted by a list: an empty list wants every name.
pub open spec fn picks(list: Seq<Seq<char>>, name: Seq<char>) -> bool {
    list.len() == 0 || list.contains(name)
}

/// The positions of the names that a list wants.
pub open spec fn picked(names: Seq<Seq<char>>, list: Seq<Seq<char>>) -> Seq<usize>
    decreases names.len(),
{
    if names.len() == 0 {
        Seq::empty()
    } else if picks(list, names.last()) {
        picked(names.drop_last(), list).push((names.len() - 1) as usize)
    } else {
        picked(names.drop_last(), list)
    }
}

/// `picked`, computed: which models or corpora a run is about.
pub fn selected(names: &Vec<String>, list: &Vec<String>) -> (r: Vec<usize>)
    ensures
        r@ == picked(contents(names@), contents(list@)),
{
    let ghost all = contents(names@);
    let mut r: Vec<usize> = Vec::new();
    let mut i: usize = 0;
    assert(all.take(0) =~= Seq::empty());
    while i < names.len()
        invariant
            i <= names@.len(),
            all == contents(names@),
            r@ =~= picked(all.take(i as int), contents(list@)),
        decreases names@.len() - i,
    {
        assert(all.take(i + 1).drop_last() =~= all.take(i as int));
        if list.len() == 0 || listed(list, names[i].as_str()) {
            r.push(i);
        }
        i = i + 1;
    }
    assert(all.take(all.len() as int) =~= all);
    r
}

/// Whether every engine is asked for by the word `all`.
pub open spec fn asks_all(a: Args) -> bool {
    contents(a.engine@).contains("all"@)
}

/// Whether an engine is wanted: all are where none is named, and the comparator
/// always is.
pub open spec fn wants(a: Args, name: Seq<char>) -> bool {
    a.engine@.len() == 0 || asks_all(a) || contents(a.engine@).contains(name) || text_of(
        a.compare_to,
    ) == Some(name)
}

/// `wants`, computed.
pub fn want(a: &Args, name: &str) -> (r: bool)
    ensures
        r == wants(*a, name@),
{
    if a.engine.len() == 0 || listed(&a.engine, "all") || listed(&a.engine, name) {
        return true;
    }
    match &a.compare_to {
        Some(other) => same(other.as_str(), name),
        None => false,
    }
}

/// How many of the names are wanted.
pub open spec fn wanted(a: Args, names: Seq<Seq<char>>) -> nat
    decreases names.len(),
{
    if names.len() == 0 {
        0
    } else {
        wanted(a, names.drop_last()) + if wants(a, names.last()) {
            1nat
        } else {
            0
        }
    }
}

/// `wanted`, computed.
pub fn count_wanted(a: &Args, names: &Vec<String>) -> (n: usize)
    ensures
        n == wanted(*a, contents(names@)),
        n <= names@.len(),
{
    let ghost all = contents(names@);
    let mut n: usize = 0;
    let mut i: usize = 0;
    assert(all.take(0) =~= Seq::empty());
    while i < names.len()
        invariant
            i <= names@.len(),
            all == contents(names@),
            n <= i,
            n == wanted(*a, all.take(i as int)),
        decreases names@.len() - i,
    {
        assert(all.take(i + 1).drop_last() =~= all.take(i as int));
        if want(a, names[i].as_str()) {
            n = n + 1;
        }
        i = i + 1;
    }
    assert(all.take(all.len() as int) =~= all);
    n
}

/// How many engines a run measures: the wanted native ones, and the wanted
/// scripted ones where it encodes.
pub open spec fn engine_count(
    a: Args,
    natives: Seq<Seq<char>>,
    scripted: Seq<Seq<char>>,
) -> nat {
    wanted(a, natives) + if passes_of(a).encode {
        wanted(a, scripted)
    } else {
        0
    }
}

// ---------------------------------------------------------------------------
// Refusals
// ---------------------------------------------------------------------------

/// Worker counts are for the footprint only.
pub open spec fn thread_refusal(a: Args) -> Option<Seq<char>> {
    if family(a) != Some(MeasureCommand::Memory) && a.threads != 1 {
        Some("--threads is available with `tokbench measure memory` only"@)
    } else {
        None
    }
}

/// `thread_refusal`, computed.
pub fn refuse_threads(a: &Args) -> (r: Option<String>)
    ensures
        text_of(r) == thread_refusal(*a),
{
    let memory = match measurement_of(a) {
        Some(command) => command == MeasureCommand::Memory,
        None => false,
    };
    if !memory && a.threads != 1 {
        Some("--threads is available with `tokbench measure memory` only".to_owned())
    } else {
        None
    }
}

/// Why no model is left.
pub fn no_models(dir: &str) -> (r: String)
    ensures
        r@ == "no selected model directories under "@ + dir@
            + " \u{2014} run `make models` or check --model"@,
{
    let mut s = "no selected model directories under ".to_owned();
    s.append(dir);
    s.append(" \u{2014} run `make models` or check --model");
    s
}

/// Why no corpus is left.
pub fn no_corpora(dir: &str) -> (r: String)
    ensures
        r@ == "no selected .txt corpora under "@ + dir@
            + " \u{2014} run `make fixtures` or check --corpus"@,
{
    let mut s = "no selected .txt corpora under ".to_owned();
    s.append(dir);
    s.append(" \u{2014} run `make fixtures` or check --corpus");
    s
}

/// The first named engine that is not known; `all` names no engine.
pub open spec fn first_unknown(list: Seq<Seq<char>>, known: Seq<Seq<char>>) -> Option<Seq<char>>
    decreases list.len(),
{
    if list.len() == 0 {
        None
    } else if list[0] != "all"@ && !known.contains(list[0]) {
        Some(list[0])
    } else {
        first_unknown(list.drop_first(), known)
    }
}

fn find_unknown(list: &Vec<String>, known: &Vec<String>) -> (r: Option<String>)
    ensures
        text_of(r) == first_unknown(contents(list@), contents(known@)),
{
    let ghost all = contents(list@);
    let mut i: usize = 0;
    assert(all.skip(0) =~= all);
    while i < list.len()
        invariant
            i <= list@.len(),
            all == contents(list@),
            first_unknown(all, contents(known@)) == first_unknown(
                all.skip(i as int),
                contents(known@),
            ),
        decreases list@.len() - i,
    {
        assert(all.skip(i as int)[0] == list@[i as int]@);
        if !same(list[i].as_str(), "all") && !listed(known, list[i].as_str()) {
            return Some(list[i].clone());
        }
        assert(all.skip(i as int).drop_first() =~= all.skip(i + 1));
        i = i + 1;
    }
    None
}

/// Whether two lists share a name.
pub open spec fn share_name(a: Seq<Seq<char>>, b: Seq<Seq<char>>) -> bool {
    exists|i: int| 0 <= i < a.len() && b.contains(#[trigger] a[i])
}

fn shares(a: &Vec<String>, b: &Vec<String>) -> (r: bool)
    ensures
        r == share_name(contents(a@), contents(b@)),
{
    let ghost c = contents(a@);
    let mut i: usize = 0;
    while i < a.len()
        invariant
            i <= a@.len(),
            c == contents(a@),
            forall|k: int| 0 <= k < i ==> !contents(b@).contains(#[trigger] c[k]),
        decreases a@.len() - i,
    {
        if listed(b, a[i].as_str()) {
            assert(contents(b@).contains(c[i as int]));
            return true;
        }
        i = i + 1;
    }
    false
}

/// Why a name is not an engine here.
pub open spec fn not_compiled(front: Seq<char>, name: Seq<char>, known: Seq<Seq<char>>) -> Seq<
    char,
> {
    front + name + " is not compiled in; available engines: "@ + spliced(known, ", "@)
}

fn not_compiled_text(front: &str, name: &str, known: &Vec<String>) -> (r: String)
    ensures
        r@ == not_compiled(front@, name@, contents(known@)),
{
    let mut s = front.to_owned();
    s.append(name);
    s.append(" is not compiled in; available engines: ");
    let names = join(known, ", ");
    s.append(names.as_str());
    s
}

/// Why a comparison is refused.
pub open spec fn comparison_refusal(a: Args, known: Seq<Seq<char>>) -> Option<Seq<char>> {
    match a.compare_to {
        Some(c) => if family(a) is None {
            Some("--compare-to is available with `tokbench measure` only"@)
        } else if !known.contains(c@) {
            Some(not_compiled("comparison engine "@, c@, known))
        } else if contents(a.engine@).contains(c@) {
            Some("--engine and --compare-to must name different engines"@)
        } else {
            None
        },
        None => None,
    }
}

/// Whether a scripted engine is asked for, as target or comparator.
pub open spec fn asks_scripted(a: Args, scripted: Seq<Seq<char>>) -> bool {
    share_name(contents(a.engine@), scripted) || (a.compare_to is Some && scripted.contains(
        a.compare_to->0@,
    ))
}

/// Why a run over `corpora` corpora is refused, the first reason that applies.
pub open spec fn refusal_of(
    a: Args,
    corpora: nat,
    natives: Seq<Seq<char>>,
    scripted: Seq<Seq<char>>,
) -> Option<Seq<char>> {
    let known = natives + scripted;
    let p = passes_of(a);
    if p.memory_only && (a.corpus@.len() != 1 || corpora != 1) {
        Some("`tokbench measure memory` requires exactly one explicit --corpus"@)
    } else if asks_all(a) && a.engine@.len() != 1 {
        Some("--engine all cannot be combined with another --engine value"@)
    } else if first_unknown(contents(a.engine@), known) is Some {
        Some(not_compiled("engine "@, first_unknown(contents(a.engine@), known)->0, known))
    } else if comparison_refusal(a, known) is Some {
        comparison_refusal(a, known)
    } else if family(a) is Some && !p.encode && asks_scripted(a, scripted) {
        Some(
            "decode, latency, scaling, and memory measurements currently support native engines only"@,
        )
    } else if p.decode && !natives.contains(REFERENCE@) {
        Some("decode measurement requires the "@ + REFERENCE@
            + " engine to provide shared token IDs"@)
    } else if a.cache_capacity is Some && !known.contains("pipeline"@) {
        Some("--cache-capacity requires the pipeline engine feature"@)
    } else if a.cache_capacity is Some && !wants(a, "pipeline"@) {
        Some("--cache-capacity requires selecting the pipeline engine"@)
    } else if engine_count(a, natives, scripted) == 0 {
        Some("no selected engines support this measurement"@)
    } else {
        None
    }
}

fn refuse_comparison(a: &Args, known: &Vec<String>) -> (r: Option<String>)
    ensures
        text_of(r) == comparison_refusal(*a, contents(known@)),
{
    match &a.compare_to {
        Some(c) => if a.command.is_none() {
            Some("--compare-to is available with `tokbench measure` only".to_owned())
        } else if !listed(known, c.as_str()) {
            Some(not_compiled_text("comparison engine ", c.as_str(), known))
        } else if listed(&a.engine, c.as_str()) {
            Some("--engine and --compare-to must name different engines".to_owned())
        } else {
            None
        },
        None => None,
    }
}

fn both(a: &Vec<String>, b: &Vec<String>) -> (r: Vec<String>)
    ensures
        contents(r@) == contents(a@) + contents(b@),
{
    let mut r: Vec<String> = Vec::new();
    let mut i: usize = 0;
    while i < a.len()
        invariant
            i <= a@.len(),
            r@.len() == i,
            forall|k: int| 0 <= k < i ==> #[trigger] r@[k] == a@[k],
        decreases a@.len() - i,
    {
        r.push(a[i].clone());
        i = i + 1;
    }
    let mut j: usize = 0;
    while j < b.len()
        invariant
            j <= b@.len(),
            r@.len() == a@.len() + j,
            forall|k: int| 0 <= k < a@.len() ==> #[trigger] r@[k] == a@[k],
            forall|k: int| a@.len() <= k < r@.len() ==> #[trigger] r@[k] == b@[k - a@.len()],
        decreases b@.len() - j,
    {
        r.push(b[j].clone());
        j = j + 1;
    }
    assert(contents(r@) =~= contents(a@) + contents(b@));
    r
}

/// `refusal_of`, computed.
pub fn refuse_run(
    a: &Args,
    corpora: usize,
    natives: &Vec<String>,
    scripted: &Vec<String>,
) -> (r: Option<String>)
    ensures
        text_of(r) == refusal_of(*a, corpora as nat, contents(natives@), contents(scripted@)),
{
    let known = both(natives, scripted);
    let p = passes(a);
    if p.memory_only && (a.corpus.len() != 1 || corpora != 1) {
        return Some(
            "`tokbench measure memory` requires exactly one explicit --corpus".to_owned(),
        );
    }
    if listed(&a.engine, "all") && a.engine.len() != 1 {
        return Some("--engine all cannot be combined with another --engine value".to_owned());
    }
    if let Some(unknown) = find_unknown(&a.engine, &known) {
        return Some(not_compiled_text("engine ", unknown.as_str(), &known));
    }
    let comparison = refuse_comparison(a, &known);
    if comparison.is_some() {
        return comparison;
    }
    if a.command.is_some() && !p.encode {
        let named = shares(&a.engine, scripted);
        let compared = match &a.compare_to {
            Some(c) => listed(scripted, c.as_str()),
            None => false,
        };
        if named || compared {
            return Some(
                "decode, latency, scaling, and memory measurements currently support native engines only".to_owned(),
            );
        }
    }
    if p.decode && !listed(natives, REFERENCE) {
        let mut s = "decode measurement requires the ".to_owned();
        s.append(REFERENCE);
        s.append(" engine to provide shared token IDs");
        return Some(s);
    }
    if a.cache_capacity.is_some() {
        if !listed(&known, "pipeline") {
            return Some("--cache-capacity requires the pipeline engine feature".to_owned());
        }
        if !want(a, "pipeline") {
            return Some("--cache-capacity requires selecting the pipeline engine".to_owned());
        }
    }
    if count_wanted(a, natives) == 0 && (!p.encode || count_wanted(a, scripted) == 0) {
        return Some("no selected engines support this measurement".to_owned());
    }
    None
}

// ---------------------------------------------------------------------------
// Settings
// ---------------------------------------------------------------------------

/// The counts that are at most a limit.
pub open spec fn limited(counts: Seq<usize>, limit: Option<usize>) -> Seq<usize>
    decreases counts.len(),
{
    if counts.len() == 0 {
        Seq::empty()
    } else if limit is None || counts.last() <= limit->0 {
        limited(counts.drop_last(), limit).push(counts.last())
    } else {
        limited(counts.drop_last(), limit)
    }
}

/// The widths of a sweep, in the order they are measured.
pub open spec fn sweep_of(a: Args, counts: Seq<usize>) -> Seq<usize> {
    if a.reverse_scaling {
        limited(counts, a.max_threads).reverse()
    } else {
        limited(counts, a.max_threads)
    }
}

/// `sweep_of`, computed.
pub fn thread_sweep(a: &Args, counts: &Vec<usize>) -> (r: Vec<usize>)
    ensures
        r@ == sweep_of(*a, counts@),
{
    let mut kept: Vec<usize> = Vec::new();
    let mut i: usize = 0;
    assert(counts@.take(0) =~= Seq::empty());
    while i < counts.len()
        invariant
            i <= counts@.len(),
            kept@ =~= limited(counts@.take(i as int), a.max_threads),
        decreases counts@.len() - i,
    {
        assert(counts@.take(i + 1).drop_last() =~= counts@.take(i as int));
        let keep = match a.max_threads {
            Some(limit) => counts[i] <= limit,
            None => true,
        };
        if keep {
            kept.push(counts[i]);
        }
        i = i + 1;
    }
    assert(counts@.take(counts@.len() as int) =~= counts@);
    if !a.reverse_scaling {
        return kept;
    }
    let mut r: Vec<usize> = Vec::new();
    let mut j: usize = kept.len();
    while j > 0
        invariant
            j <= kept@.len(),
            r@.len() == kept@.len() - j,
            forall|k: int| 0 <= k < r@.len() ==> #[trigger] r@[k] == kept@[kept@.len() - 1 - k],
        decreases j,
    {
        r.push(kept[j - 1]);
        j = j - 1;
    }
    assert(r@ =~= kept@.reverse());
    r
}

/// The padding modes a sweep measures.
pub open spec fn modes_of(a: Args) -> Seq<Padding> {
    if a.padding@ == "off"@ {
        seq![Padding::Off]
    } else if a.padding@ == "longest"@ {
        seq![Padding::Longest]
    } else {
        seq![Padding::Off, Padding::Longest]
    }
}

/// `modes_of`, computed.
pub fn padding_modes(a: &Args) -> (r: Vec<Padding>)
    ensures
        r@ == modes_of(*a),
{
    let mut r: Vec<Padding> = Vec::new();
    if same(a.padding.as_str(), "off") {
        r.push(Padding::Off);
    } else if same(a.padding.as_str(), "longest") {
        r.push(Padding::Longest);
    } else {
        r.push(Padding::Off);
        r.push(Padding::Longest);
    }
    assert(r@ =~= modes_of(*a));
    r
}

/// How the workers are supplied.
pub open spec fn mode_of(text: Seq<char>) -> ScalingMode {
    if text == "native-threads"@ {
        ScalingMode::NativeThreads
    } else if text == "independent-instances"@ {
        ScalingMode::IndependentInstances
    } else {
        ScalingMode::Auto
    }
}

/// `mode_of`, computed.
pub fn scaling_mode(a: &Args) -> (r: ScalingMode)
    ensures
        r == mode_of(a.scaling_mode@),
{
    if same(a.scaling_mode.as_str(), "native-threads") {
        ScalingMode::NativeThreads
    } else if same(a.scaling_mode.as_str(), "independent-instances") {
        ScalingMode::IndependentInstances
    } else {
        ScalingMode::Auto
    }
}

/// Whether the sweep runs on a corpus: on all where it is what is measured, and
/// on the named ones in a full run.
pub open spec fn sweeps(a: Args, corpus: Seq<char>) -> bool {
    passes_of(a).scaling || (family(a) is None && contents(a.scaling@).contains(corpus))
}

/// `sweeps`, computed.
pub fn sweeps_corpus(a: &Args, corpus: &str) -> (r: bool)
    ensures
        r == sweeps(*a, corpus@),
{
    passes(a).scaling || (a.command.is_none() && listed(&a.scaling, corpus))
}

/// Whether latency is measured on a corpus, in the same way.
pub open spec fn times(a: Args, corpus: Seq<char>) -> bool {
    passes_of(a).latency || (family(a) is None && contents(a.latency@).contains(corpus))
}

/// `times`, computed.
pub fn times_corpus(a: &Args, corpus: &str) -> (r: bool)
    ensures
        r == times(*a, corpus@),
{
    passes(a).latency || (a.command.is_none() && listed(&a.latency, corpus))
}

/// The cache capacity an engine is built with: the pipeline's is configurable.
pub fn capacity_for(a: &Args, name: &str) -> (r: Option<usize>)
    ensures
        r == if name@ == "pipeline"@ {
            a.cache_capacity
        } else {
            None
        },
{
    if same(name, "pipeline") {
        a.cache_capacity
    } else {
        None
    }
}

/// How the footprint is taken: with how many workers, supplied how, and how
/// often.
pub struct FootprintPlan {
    pub threads: usize,
    pub mode: String,
    pub reps: usize,
}

/// The footprint of a full run is that of one instance, taken once.
pub fn footprint_plan(a: &Args) -> (r: FootprintPlan)
    ensures
        passes_of(*a).memory_only ==> r.threads == a.threads && r.mode@ == a.scaling_mode@
            && r.reps == (if a.reps == 0 {
            1
        } else {
            a.reps
        }),
        !passes_of(*a).memory_only ==> r.threads == 1 && r.mode@ == "independent-instances"@
            && r.reps == 1,
{
    if passes(a).memory_only {
        FootprintPlan {
            threads: a.threads,
            mode: a.scaling_mode.clone(),
            reps: if a.reps == 0 {
                1
            } else {
                a.reps
            },
        }
    } else {
        FootprintPlan { threads: 1, mode: "independent-instances".to_owned(), reps: 1 }
    }
}

// ---------------------------------------------------------------------------
// Scripted engines
// ---------------------------------------------------------------------------

/// Whether a text ends with another.
pub open spec fn ends_with(s: Seq<char>, tail: Seq<char>) -> bool {
    s.len() >= tail.len() && s.skip(s.len() - tail.len()) == tail
}

/// What runs a script: `node` for a module, else the Python interpreter.
pub open spec fn runner(script: Seq<char>, python: Seq<char>) -> Seq<char> {
    if ends_with(script, ".mjs"@) {
        "node"@
    } else {
        python
    }
}

fn ends(s: &str, tail: &str) -> (r: bool)
    ensures
        r == ends_with(s@, tail@),
{
    let v = chars_of(s);
    let t = chars_of(tail);
    if v.len() < t.len() {
        return false;
    }
    let off: usize = v.len() - t.len();
    let mut i: usize = 0;
    while i < t.len()
        invariant
            i <= t@.len(),
            off + t@.len() == v@.len(),
            v@ == s@,
            t@ == tail@,
            off as int == s@.len() - tail@.len(),
            forall|k: int| 0 <= k < i ==> #[trigger] t@[k] == v@[off + k],
            off + t@.len() <= usize::MAX,
        decreases t@.len() - i,
    {
        if v[off + i] != t[i] {
            assert(s@.skip(off as int)[i as int] != tail@[i as int]);
            return false;
        }
        i = i + 1;
    }
    assert(s@.skip(off as int) =~= tail@);
    true
}

/// `runner`, computed.
pub fn interpreter(script: &str, python: &str) -> (r: String)
    ensures
        r@ == runner(script@, python@),
{
    if ends(script, ".mjs") {
        "node".to_owned()
    } else {
        python.to_owned()
    }
}

/// Documents are about ten kilobytes.
pub const CHUNK_BYTES: usize = 10240;

/// A cell is at most this many documents.
pub const MAX_CHUNKS: usize = 100;

/// The arguments a script is run with.
pub fn scripted_args(script: &str, model: &str, corpus: &str, reps: usize) -> (r: Vec<String>)
    ensures
        contents(r@) == seq![
            script@,
            "--model"@,
            model@,
            "--corpus"@,
            corpus@,
            "--reps"@,
            decimal(reps as nat),
            "--chunk-bytes"@,
            decimal(CHUNK_BYTES as nat),
            "--max-chunks"@,
            decimal(MAX_CHUNKS as nat),
        ],
{
    let mut r: Vec<String> = Vec::new();
    r.push(script.to_owned());
    r.push("--model".to_owned());
    r.push(model.to_owned());
    r.push("--corpus".to_owned());
    r.push(corpus.to_owned());
    r.push("--reps".to_owned());
    r.push(count_text(reps));
    r.push("--chunk-bytes".to_owned());
    r.push(count_text(CHUNK_BYTES));
    r.push("--max-chunks".to_owned());
    r.push(count_text(MAX_CHUNKS));
    assert(contents(r@) =~= seq![
        script@,
        "--model"@,
        model@,
        "--corpus"@,
        corpus@,
        "--reps"@,
        decimal(reps as nat),
        "--chunk-bytes"@,
        decimal(CHUNK_BYTES as nat),
        "--max-chunks"@,
        decimal(MAX_CHUNKS as nat),
    ]);
    r
}

// ---------------------------------------------------------------------------
// What the answers are
// ---------------------------------------------------------------------------

/// The family that a command line names.
pub open spec fn names_family(a: Args, command: MeasureCommand) -> bool {
    a.command == Some(CliCommand::Measure { command })
}

/// A run without a family encodes, decodes unless told not to, and takes the
/// footprint unless told not to. A family is its own pass and no other, whatever the
/// other switches say.
pub proof fn law_passes_go_by_the_command(a: &Args, p: Passes)
    requires
        call_ensures(passes, (a,), p),
    ensures
        p.encode <==> a.command is None || names_family(*a, MeasureCommand::Encode),
        p.decode <==> (a.command is None && !a.no_decode) || names_family(
            *a,
            MeasureCommand::Decode,
        ),
        p.latency <==> names_family(*a, MeasureCommand::Latency),
        p.scaling <==> names_family(*a, MeasureCommand::Scaling),
        p.memory <==> (a.command is None && !a.no_memory) || names_family(
            *a,
            MeasureCommand::Memory,
        ),
        p.memory_only <==> names_family(*a, MeasureCommand::Memory),
{
}

/// The family is known exactly where a command is given, and is the one it gives.
pub proof fn law_family_is_the_command(a: &Args, r: Option<MeasureCommand>)
    requires
        call_ensures(measurement_of, (a,), r),
    ensures
        r is None <==> a.command is None,
        r is Some ==> names_family(*a, r->0),
{
}

proof fn lemma_picked(names: Seq<Seq<char>>, list: Seq<Seq<char>>, i: int)
    requires
        0 <= i < names.len() <= usize::MAX,
    ensures
        picked(names, list).contains(i as usize) <==> list.len() == 0 || list.contains(names[i]),
    decreases names.len(),
{
    let front = picked(names.drop_last(), list);
    let n = (names.len() - 1) as usize;
    lemma_picked_rise(names.drop_last(), list);
    if i < names.len() - 1 {
        lemma_picked(names.drop_last(), list, i);
        if picks(list, names.last()) {
            assert(picked(names, list) == front.push(n));
            if front.contains(i as usize) {
                let k = choose|k: int| 0 <= k < front.len() && front[k] == i as usize;
                assert(picked(names, list)[k] == i as usize);
            }
        }
    } else if picks(list, names.last()) {
        assert(picked(names, list)[front.len() as int] == i as usize);
    }
}

proof fn lemma_picked_rise(names: Seq<Seq<char>>, list: Seq<Seq<char>>)
    requires
        names.len() <= usize::MAX,
    ensures
        forall|k: int| 0 <= k < picked(names, list).len() ==> #[trigger] picked(names, list)[k]
            < names.len(),
        forall|k: int, m: int|
            0 <= k < m < picked(names, list).len() ==> #[trigger] picked(names, list)[k]
                < #[trigger] picked(names, list)[m],
    decreases names.len(),
{
    if names.len() > 0 {
        lemma_picked_rise(names.drop_last(), list);
        let (front, all) = (picked(names.drop_last(), list), picked(names, list));
        assert forall|k: int| 0 <= k < all.len() implies #[trigger] all[k] < names.len() by {
            if k < front.len() {
                assert(all[k] == front[k]);
            }
        }
        assert forall|k: int, m: int| 0 <= k < m < all.len() implies #[trigger] all[k]
            < #[trigger] all[m] by {
            assert(all[k] == front[k]);
            if m < front.len() {
                assert(all[m] == front[m]);
            }
        }
    }
}

/// A run is about the names that its list holds, and about all of them where the
/// list is empty; each once, in the order of the names.
pub proof fn law_selection_is_what_is_listed(
    names: &Vec<String>,
    list: &Vec<String>,
    r: Vec<usize>,
    i: int,
)
    requires
        call_ensures(selected, (names, list), r),
        0 <= i < names@.len(),
    ensures
        r@.contains(i as usize) <==> list@.len() == 0 || exists|k: int|
            0 <= k < list@.len() && #[trigger] list@[k]@ == names@[i]@,
        forall|k: int| 0 <= k < r@.len() ==> #[trigger] r@[k] < names@.len(),
        forall|k: int, m: int| 0 <= k < m < r@.len() ==> #[trigger] r@[k] < #[trigger] r@[m],
{
    assert(names@.len() == names.len());
    let all = contents(names@);
    let wants = contents(list@);
    lemma_picked(all, wants, i);
    lemma_picked_rise(all, wants);
    if wants.contains(all[i]) {
        let k = choose|k: int| 0 <= k < wants.len() && wants[k] == all[i];
        assert(list@[k]@ == names@[i]@);
    }
    if exists|k: int| 0 <= k < list@.len() && #[trigger] list@[k]@ == names@[i]@ {
        let k = choose|k: int| 0 <= k < list@.len() && #[trigger] list@[k]@ == names@[i]@;
        assert(wants[k] == all[i]);
    }
}

/// Whether a command line asks for an engine: it names none, or says `all`, or names
/// this one, as a target or as the comparator.
pub open spec fn asks_for(a: Args, name: Seq<char>) -> bool {
    ||| a.engine@.len() == 0
    ||| exists|k: int| 0 <= k < a.engine@.len() && (#[trigger] a.engine@[k])@ == "all"@
    ||| exists|k: int| 0 <= k < a.engine@.len() && (#[trigger] a.engine@[k])@ == name
    ||| a.compare_to is Some && a.compare_to->0@ == name
}

proof fn lemma_stands(list: Seq<String>, name: Seq<char>)
    ensures
        contents(list).contains(name) <==> exists|k: int|
            0 <= k < list.len() && (#[trigger] list[k])@ == name,
{
    let c = contents(list);
    if c.contains(name) {
        let k = choose|k: int| 0 <= k < c.len() && c[k] == name;
        assert(list[k]@ == name);
    }
    if exists|k: int| 0 <= k < list.len() && (#[trigger] list[k])@ == name {
        let k = choose|k: int| 0 <= k < list.len() && (#[trigger] list[k])@ == name;
        assert(c[k] == name);
    }
}

/// An engine is measured exactly where the command line asks for it.
pub proof fn law_engines_asked_for_are_wanted(a: &Args, name: &str, r: bool)
    requires
        call_ensures(want, (a, name), r),
    ensures
        r <==> asks_for(*a, name@),
{
    lemma_stands(a.engine@, "all"@);
    lemma_stands(a.engine@, name@);
}

proof fn lemma_wants(a: Args, name: Seq<char>)
    ensures
        wants(a, name) <==> asks_for(a, name),
{
    lemma_stands(a.engine@, "all"@);
    lemma_stands(a.engine@, name);
}

proof fn lemma_wanted_filter(a: Args, names: Seq<Seq<char>>)
    ensures
        wanted(a, names) == names.filter(|name: Seq<char>| asks_for(a, name)).len(),
    decreases names.len(),
{
    reveal(Seq::filter);
    if names.len() > 0 {
        lemma_wanted_filter(a, names.drop_last());
        lemma_wants(a, names.last());
    }
}

/// The wanted engines are counted by name.
pub proof fn law_wanted_are_counted(a: &Args, names: &Vec<String>, n: usize)
    requires
        call_ensures(count_wanted, (a, names), n),
    ensures
        n == contents(names@).filter(|name: Seq<char>| asks_for(*a, name)).len(),
{
    lemma_wanted_filter(*a, contents(names@));
}

/// More than one worker, or none, is for the footprint; with one worker nothing is
/// refused.
pub proof fn law_threads_are_for_the_footprint(a: &Args, r: Option<String>)
    requires
        call_ensures(refuse_threads, (a,), r),
    ensures
        a.threads == 1 || names_family(*a, MeasureCommand::Memory) ==> r is None,
        a.threads != 1 && !names_family(*a, MeasureCommand::Memory) ==> r is Some && r->0@
            == "--threads is available with `tokbench measure memory` only"@,
{
}

/// Whether a name stands in one of two lists.
pub open spec fn in_either(a: Seq<String>, b: Seq<String>, name: Seq<char>) -> bool {
    (exists|k: int| 0 <= k < a.len() && (#[trigger] a[k])@ == name) || (exists|k: int|
        0 <= k < b.len() && (#[trigger] b[k])@ == name)
}

proof fn lemma_in_either(a: Seq<String>, b: Seq<String>, name: Seq<char>)
    ensures
        (contents(a) + contents(b)).contains(name) <==> in_either(a, b, name),
{
    lemma_stands(a, name);
    lemma_stands(b, name);
    let (x, y) = (contents(a), contents(b));
    if x.contains(name) {
        let k = choose|k: int| 0 <= k < x.len() && x[k] == name;
        assert((x + y)[k] == name);
    }
    if y.contains(name) {
        let k = choose|k: int| 0 <= k < y.len() && y[k] == name;
        assert((x + y)[x.len() + k] == name);
    }
    if (x + y).contains(name) {
        let k = choose|k: int| 0 <= k < (x + y).len() && (x + y)[k] == name;
        if k < x.len() {
            assert(x[k] == name);
        } else {
            assert(y[k - x.len()] == name);
        }
    }
}

proof fn lemma_first_unknown(list: Seq<Seq<char>>, known: Seq<Seq<char>>)
    ensures
        first_unknown(list, known) is None <==> forall|k: int|
            0 <= k < list.len() ==> (#[trigger] list[k]) == "all"@ || known.contains(list[k]),
        first_unknown(list, known) is Some ==> exists|k: int|
            #![trigger list[k]]
            0 <= k < list.len() && list[k] == first_unknown(list, known)->0 && list[k] != "all"@
                && !known.contains(list[k]) && forall|m: int|
                0 <= m < k ==> (#[trigger] list[m]) == "all"@ || known.contains(list[m]),
    decreases list.len(),
{
    if list.len() > 0 {
        let rest = list.drop_first();
        lemma_first_unknown(rest, known);
        if list[0] != "all"@ && !known.contains(list[0]) {
            assert(list[0] == first_unknown(list, known)->0);
        } else {
            if first_unknown(rest, known) is Some {
                let k = choose|k: int|
                    #![trigger rest[k]]
                    0 <= k < rest.len() && rest[k] == first_unknown(rest, known)->0 && rest[k]
                        != "all"@ && !known.contains(rest[k]) && forall|m: int|
                        0 <= m < k ==> (#[trigger] rest[m]) == "all"@ || known.contains(rest[m]);
                assert(list[k + 1] == rest[k]);
                assert forall|m: int| 0 <= m < k + 1 implies (#[trigger] list[m]) == "all"@
                    || known.contains(list[m]) by {
                    if m > 0 {
                        assert(rest[m - 1] == list[m]);
                    }
                }
            } else {
                assert forall|m: int| 0 <= m < list.len() implies (#[trigger] list[m]) == "all"@
                    || known.contains(list[m]) by {
                    if m > 0 {
                        assert(rest[m - 1] == list[m]);
                    }
                }
            }
        }
    }
}

/// Whether the demands on a memory run are met: one corpus, and it named.
pub open spec fn corpora_in_order(a: Args, corpora: nat) -> bool {
    names_family(a, MeasureCommand::Memory) ==> a.corpus@.len() == 1 && corpora == 1
}

/// Whether `all` stands alone.
pub open spec fn all_alone(a: Args) -> bool {
    forall|k: int|
        0 <= k < a.engine@.len() && (#[trigger] a.engine@[k])@ == "all"@ ==> a.engine@.len() == 1
}

/// Whether every named engine is there.
pub open spec fn engines_known(a: Args, natives: Seq<String>, scripted: Seq<String>) -> bool {
    forall|k: int|
        0 <= k < a.engine@.len() ==> (#[trigger] a.engine@[k])@ == "all"@ || in_either(
            natives,
            scripted,
            a.engine@[k]@,
        )
}

/// Whether the comparator is asked for by a family, is there, and is no target.
pub open spec fn comparator_in_order(a: Args, natives: Seq<String>, scripted: Seq<String>) -> bool {
    a.compare_to is Some ==> a.command is Some && in_either(natives, scripted, a.compare_to->0@)
        && forall|k: int|
        0 <= k < a.engine@.len() ==> (#[trigger] a.engine@[k])@ != a.compare_to->0@
}

/// Whether no scripted engine is asked to do what it cannot: encoding is all it does.
pub open spec fn scripts_only_encode(a: Args, scripted: Seq<String>) -> bool {
    a.command is Some && !names_family(a, MeasureCommand::Encode) ==> forall|k: int|
        0 <= k < scripted.len() ==> {
            &&& a.compare_to is Some ==> a.compare_to->0@ != (#[trigger] scripted[k])@
            &&& forall|m: int| 0 <= m < a.engine@.len() ==> (#[trigger] a.engine@[m])@ != scripted[k]@
        }
}

/// Whether a run that decodes has the engine whose ids are decoded.
pub open spec fn ids_at_hand(a: Args, natives: Seq<String>) -> bool {
    (a.command is None && !a.no_decode) || names_family(a, MeasureCommand::Decode) ==> exists|
        k: int,
    |
        0 <= k < natives.len() && (#[trigger] natives[k])@ == "hf-tokenizers"@
}

/// Whether a cache capacity has an engine to go to.
pub open spec fn capacity_in_order(a: Args, natives: Seq<String>, scripted: Seq<String>) -> bool {
    a.cache_capacity is Some ==> in_either(natives, scripted, "pipeline"@) && asks_for(
        a,
        "pipeline"@,
    )
}

/// Whether anything is left to measure.
pub open spec fn something_to_do(a: Args, natives: Seq<String>, scripted: Seq<String>) -> bool {
    (exists|k: int| 0 <= k < natives.len() && asks_for(a, (#[trigger] natives[k])@)) || ((
    a.command is None || names_family(a, MeasureCommand::Encode)) && exists|k: int|
        0 <= k < scripted.len() && asks_for(a, (#[trigger] scripted[k])@))
}

proof fn lemma_some_wanted(a: Args, names: Seq<Seq<char>>)
    ensures
        wanted(a, names) > 0 <==> exists|k: int|
            0 <= k < names.len() && asks_for(a, #[trigger] names[k]),
    decreases names.len(),
{
    if names.len() > 0 {
        let front = names.drop_last();
        lemma_some_wanted(a, front);
        lemma_wants(a, names.last());
        if wanted(a, front) > 0 {
            let k = choose|k: int| 0 <= k < front.len() && asks_for(a, #[trigger] front[k]);
            assert(asks_for(a, names[k]));
        }
        if wants(a, names.last()) {
            assert(asks_for(a, names[names.len() - 1]));
        }
        if exists|k: int| 0 <= k < names.len() && asks_for(a, #[trigger] names[k]) {
            let k = choose|k: int| 0 <= k < names.len() && asks_for(a, #[trigger] names[k]);
            if k < names.len() - 1 {
                assert(front[k] == names[k]);
            }
        }
    }
}

proof fn lemma_demands(a: Args, natives: Seq<String>, scripted: Seq<String>)
    ensures
        all_alone(a) <==> !(asks_all(a) && a.engine@.len() != 1),
        engines_known(a, natives, scripted) <==> first_unknown(
            contents(a.engine@),
            contents(natives) + contents(scripted),
        ) is None,
        comparator_in_order(a, natives, scripted) <==> comparison_refusal(
            a,
            contents(natives) + contents(scripted),
        ) is None,
        scripts_only_encode(a, scripted) <==> !(family(a) is Some && !passes_of(a).encode
            && asks_scripted(a, contents(scripted))),
        something_to_do(a, natives, scripted) <==> engine_count(
            a,
            contents(natives),
            contents(scripted),
        ) > 0,
{
    let asked = contents(a.engine@);
    let known = contents(natives) + contents(scripted);
    lemma_stands(a.engine@, "all"@);
    lemma_first_unknown(asked, known);
    assert forall|k: int| 0 <= k < a.engine@.len() implies (known.contains(asked[k]) <==> in_either(
        natives,
        scripted,
        (#[trigger] a.engine@[k])@,
    )) by {
        lemma_in_either(natives, scripted, a.engine@[k]@);
    }
    if engines_known(a, natives, scripted) {
        assert forall|k: int| 0 <= k < asked.len() implies (#[trigger] asked[k]) == "all"@
            || known.contains(asked[k]) by {
            assert(a.engine@[k]@ == asked[k]);
        }
    } else {
        let k = choose|k: int|
            0 <= k < a.engine@.len() && !((#[trigger] a.engine@[k])@ == "all"@ || in_either(
                natives,
                scripted,
                a.engine@[k]@,
            ));
        assert(asked[k] == a.engine@[k]@);
    }
    if let Some(c) = a.compare_to {
        lemma_in_either(natives, scripted, c@);
        lemma_stands(a.engine@, c@);
        lemma_stands(scripted, c@);
    }
    let rest = contents(scripted);
    assert forall|m: int| 0 <= m < asked.len() implies (rest.contains(#[trigger] asked[m])
        <==> exists|k: int| 0 <= k < scripted.len() && (#[trigger] scripted[k])@ == asked[m]) by {
        lemma_stands(scripted, asked[m]);
    }
    if family(a) is Some && !passes_of(a).encode {
        if asks_scripted(a, rest) {
            if share_name(asked, rest) {
                let m = choose|m: int| 0 <= m < asked.len() && rest.contains(#[trigger] asked[m]);
                let k = choose|k: int| 0 <= k < scripted.len() && (#[trigger] scripted[k])@ == asked[m];
                assert(a.engine@[m]@ == scripted[k]@);
            }
        } else {
            assert forall|k: int| 0 <= k < scripted.len() implies {
                &&& a.compare_to is Some ==> a.compare_to->0@ != (#[trigger] scripted[k])@
                &&& forall|m: int|
                    0 <= m < a.engine@.len() ==> (#[trigger] a.engine@[m])@ != scripted[k]@
            } by {
                assert forall|m: int| 0 <= m < a.engine@.len() implies (#[trigger] a.engine@[m])@
                    != scripted[k]@ by {
                    assert(asked[m] == a.engine@[m]@);
                    assert(!rest.contains(asked[m]));
                }
            }
        }
    }
    lemma_some_wanted(a, contents(natives));
    lemma_some_wanted(a, rest);
    if wanted(a, contents(natives)) > 0 {
        let c = contents(natives);
        let k = choose|k: int| 0 <= k < c.len() && asks_for(a, #[trigger] c[k]);
        assert(asks_for(a, natives[k]@));
    }
    if wanted(a, rest) > 0 {
        let k = choose|k: int| 0 <= k < rest.len() && asks_for(a, #[trigger] rest[k]);
        assert(asks_for(a, scripted[k]@));
    }
    if exists|k: int| 0 <= k < natives.len() && asks_for(a, (#[trigger] natives[k])@) {
        let k = choose|k: int| 0 <= k < natives.len() && asks_for(a, (#[trigger] natives[k])@);
        assert(asks_for(a, contents(natives)[k]));
    }
    if exists|k: int| 0 <= k < scripted.len() && asks_for(a, (#[trigger] scripted[k])@) {
        let k = choose|k: int| 0 <= k < scripted.len() && asks_for(a, (#[trigger] scripted[k])@);
        assert(asks_for(a, rest[k]));
    }
}

/// A run is accepted exactly where nothing speaks against it.
pub proof fn law_runs_in_order_are_accepted(
    a: &Args,
    corpora: usize,
    natives: &Vec<String>,
    scripted: &Vec<String>,
    r: Option<String>,
)
    requires
        call_ensures(refuse_run, (a, corpora, natives, scripted), r),
    ensures
        r is None <==> {
            &&& corpora_in_order(*a, corpora as nat)
            &&& all_alone(*a)
            &&& engines_known(*a, natives@, scripted@)
            &&& comparator_in_order(*a, natives@, scripted@)
            &&& scripts_only_encode(*a, scripted@)
            &&& ids_at_hand(*a, natives@)
            &&& capacity_in_order(*a, natives@, scripted@)
            &&& something_to_do(*a, natives@, scripted@)
        },
{
    lemma_demands(*a, natives@, scripted@);
    lemma_stands(natives@, REFERENCE@);
    lemma_in_either(natives@, scripted@, "pipeline"@);
    lemma_wants(*a, "pipeline"@);
}

/// What is said of a refused run goes by the first demand that it fails.
pub proof fn law_refusals_say_why(
    a: &Args,
    corpora: usize,
    natives: &Vec<String>,
    scripted: &Vec<String>,
    r: Option<String>,
)
    requires
        call_ensures(refuse_run, (a, corpora, natives, scripted), r),
        r is Some,
    ensures
        ({
            let text = r->0@;
            let corpora_fit = corpora_in_order(*a, corpora as nat);
            let alone = corpora_fit && all_alone(*a);
            let known = alone && engines_known(*a, natives@, scripted@);
            let compared = known && comparator_in_order(*a, natives@, scripted@);
            let able = compared && scripts_only_encode(*a, scripted@);
            let ids = able && ids_at_hand(*a, natives@);
            &&& !corpora_fit ==> text
                == "`tokbench measure memory` requires exactly one explicit --corpus"@
            &&& corpora_fit && !alone ==> text
                == "--engine all cannot be combined with another --engine value"@
            &&& known && !compared && a.command is None ==> text
                == "--compare-to is available with `tokbench measure` only"@
            &&& known && !compared && a.command is Some && in_either(
                natives@,
                scripted@,
                a.compare_to->0@,
            ) ==> text == "--engine and --compare-to must name different engines"@
            &&& compared && !able ==> text
                == "decode, latency, scaling, and memory measurements currently support native engines only"@
            &&& able && !ids ==> text == "decode measurement requires the "@ + "hf-tokenizers"@
                + " engine to provide shared token IDs"@
            &&& ids && a.cache_capacity is Some && !in_either(natives@, scripted@, "pipeline"@)
                ==> text == "--cache-capacity requires the pipeline engine feature"@
            &&& ids && a.cache_capacity is Some && in_either(natives@, scripted@, "pipeline"@)
                && !asks_for(*a, "pipeline"@) ==> text
                == "--cache-capacity requires selecting the pipeline engine"@
            &&& ids && capacity_in_order(*a, natives@, scripted@) ==> text
                == "no selected engines support this measurement"@
        }),
{
    lemma_demands(*a, natives@, scripted@);
    lemma_stands(natives@, REFERENCE@);
    lemma_in_either(natives@, scripted@, "pipeline"@);
    lemma_wants(*a, "pipeline"@);
    if let Some(c) = a.compare_to {
        lemma_in_either(natives@, scripted@, c@);
        lemma_stands(a.engine@, c@);
    }
}

/// An engine that is not there is named in the refusal, the first of several, with
/// those that are.
pub proof fn law_unknown_engines_are_named(
    a: &Args,
    corpora: usize,
    natives: &Vec<String>,
    scripted: &Vec<String>,
    r: Option<String>,
    k: int,
)
    requires
        call_ensures(refuse_run, (a, corpora, natives, scripted), r),
        corpora_in_order(*a, corpora as nat),
        all_alone(*a),
        0 <= k < a.engine@.len(),
        a.engine@[k]@ != "all"@,
        !in_either(natives@, scripted@, a.engine@[k]@),
        forall|m: int|
            0 <= m < k ==> (#[trigger] a.engine@[m])@ == "all"@ || in_either(
                natives@,
                scripted@,
                a.engine@[m]@,
            ),
    ensures
        r is Some,
        r->0@ == "engine "@ + a.engine@[k]@ + " is not compiled in; available engines: "@ + spliced(
            contents(natives@) + contents(scripted@),
            ", "@,
        ),
{
    let asked = contents(a.engine@);
    let known = contents(natives@) + contents(scripted@);
    lemma_demands(*a, natives@, scripted@);
    lemma_first_unknown(asked, known);
    lemma_in_either(natives@, scripted@, a.engine@[k]@);
    let j = choose|j: int|
        #![trigger asked[j]]
        0 <= j < asked.len() && asked[j] == first_unknown(asked, known)->0 && asked[j] != "all"@
            && !known.contains(asked[j]) && forall|m: int|
            0 <= m < j ==> (#[trigger] asked[m]) == "all"@ || known.contains(asked[m]);
    lemma_in_either(natives@, scripted@, a.engine@[j]@);
    if j < k {
        assert(a.engine@[j]@ == asked[j]);
    }
    assert(asked[k] == a.engine@[k]@);
    assert(j == k);
}

/// A comparator that is not there is named in the refusal, with those that are.
pub proof fn law_unknown_comparator_is_named(
    a: &Args,
    corpora: usize,
    natives: &Vec<String>,
    scripted: &Vec<String>,
    r: Option<String>,
)
    requires
        call_ensures(refuse_run, (a, corpora, natives, scripted), r),
        corpora_in_order(*a, corpora as nat),
        all_alone(*a),
        engines_known(*a, natives@, scripted@),
        a.command is Some,
        a.compare_to is Some,
        !in_either(natives@, scripted@, a.compare_to->0@),
    ensures
        r is Some,
        r->0@ == "comparison engine "@ + a.compare_to->0@
            + " is not compiled in; available engines: "@ + spliced(
            contents(natives@) + contents(scripted@),
            ", "@,
        ),
{
    lemma_demands(*a, natives@, scripted@);
    lemma_in_either(natives@, scripted@, a.compare_to->0@);
}

proof fn lemma_limited(counts: Seq<usize>, limit: Option<usize>)
    ensures
        limited(counts, limit) == counts.filter(|n: usize| limit is None || n <= limit->0),
    decreases counts.len(),
{
    reveal(Seq::filter);
    if counts.len() > 0 {
        lemma_limited(counts.drop_last(), limit);
    }
}

/// A sweep takes every width that is not above its limit, in the order of the
/// widths, or in the opposite one.
pub proof fn law_sweep_keeps_the_widths_within_the_limit(
    a: &Args,
    counts: &Vec<usize>,
    r: Vec<usize>,
)
    requires
        call_ensures(thread_sweep, (a, counts), r),
    ensures
        ({
            let kept = counts@.filter(|n: usize| a.max_threads is None || n <= a.max_threads->0);
            &&& !a.reverse_scaling ==> r@ == kept
            &&& a.reverse_scaling ==> r@.len() == kept.len() && forall|k: int|
                0 <= k < r@.len() ==> #[trigger] r@[k] == kept[kept.len() - 1 - k]
        }),
{
    let limit = a.max_threads;
    lemma_limited(counts@, limit);
    let keep = |n: usize| limit is None || n <= limit->0;
    let same_keep = |n: usize| a.max_threads is None || n <= a.max_threads->0;
    assert(keep =~= same_keep);
}

/// Both padding modes are measured unless one is asked for, unpadded text first.
pub proof fn law_padding_modes_are_those_asked_for(a: &Args, r: Vec<Padding>)
    requires
        call_ensures(padding_modes, (a,), r),
    ensures
        r@.contains(Padding::Off) <==> a.padding@ != "longest"@,
        r@.contains(Padding::Longest) <==> a.padding@ != "off"@,
        r@.no_duplicates(),
        a.padding@ != "longest"@ ==> r@[0] == Padding::Off,
{
    reveal_strlit("off");
    reveal_strlit("longest");
    assert("off"@.len() != "longest"@.len());
    if a.padding@ == "off"@ {
        assert(r@[0] == Padding::Off);
    } else if a.padding@ == "longest"@ {
        assert(r@[0] == Padding::Longest);
    } else {
        assert(r@[0] == Padding::Off && r@[1] == Padding::Longest);
    }
}

/// A way to supply workers is used where its name is given, and found out where
/// another text is.
pub proof fn law_scaling_mode_goes_by_its_name(a: &Args, r: ScalingMode)
    requires
        call_ensures(scaling_mode, (a,), r),
    ensures
        r == ScalingMode::NativeThreads <==> a.scaling_mode@ == "native-threads"@,
        r == ScalingMode::IndependentInstances <==> a.scaling_mode@ == "independent-instances"@,
{
    reveal_strlit("native-threads");
    reveal_strlit("independent-instances");
    assert("native-threads"@.len() != "independent-instances"@.len());
}

/// Scaling and latency are measured on every corpus where they are what is
/// measured; a full run measures them on the corpora that are named for them, and
/// another family on none.
pub proof fn law_extra_passes_need_a_corpus_of_theirs(
    a: &Args,
    corpus: &str,
    swept: bool,
    timed: bool,
)
    requires
        call_ensures(sweeps_corpus, (a, corpus), swept),
        call_ensures(times_corpus, (a, corpus), timed),
    ensures
        names_family(*a, MeasureCommand::Scaling) ==> swept && !timed,
        names_family(*a, MeasureCommand::Latency) ==> timed && !swept,
        a.command is None ==> (swept <==> exists|k: int|
            0 <= k < a.scaling@.len() && (#[trigger] a.scaling@[k])@ == corpus@),
        a.command is None ==> (timed <==> exists|k: int|
            0 <= k < a.latency@.len() && (#[trigger] a.latency@[k])@ == corpus@),
        a.command is Some && swept ==> names_family(*a, MeasureCommand::Scaling),
        a.command is Some && timed ==> names_family(*a, MeasureCommand::Latency),
{
    lemma_stands(a.scaling@, corpus@);
    lemma_stands(a.latency@, corpus@);
}

/// A cache capacity goes to the pipeline as it was given, and to nothing else.
pub proof fn law_capacity_goes_to_the_pipeline(a: &Args, name: &str, r: Option<usize>)
    requires
        call_ensures(capacity_for, (a, name), r),
    ensures
        r is Some ==> name@ == "pipeline"@ && r == a.cache_capacity,
        name@ == "pipeline"@ && r is None ==> a.cache_capacity is None,
{
}

/// A footprint that is what is measured has as many workers as were asked for,
/// supplied as was asked, and is taken as often as was asked, at least once. Beside
/// other passes it is that of one instance, taken once, whatever was asked.
pub proof fn law_footprint_is_as_asked(a: &Args, r: FootprintPlan)
    requires
        call_ensures(footprint_plan, (a,), r),
    ensures
        r.reps >= 1,
        names_family(*a, MeasureCommand::Memory) ==> r.threads == a.threads && r.mode@
            == a.scaling_mode@ && (a.reps >= 1 ==> r.reps == a.reps) && (a.reps == 0 ==> r.reps
            == 1),
        !names_family(*a, MeasureCommand::Memory) ==> r.threads == 1 && r.reps == 1 && r.mode@
            == "independent-instances"@,
{
}

/// A script is run by `node` where its name is some stem and `.mjs`, and by the
/// interpreter that was given where it is not.
pub proof fn law_modules_run_on_node(script: &str, python: &str, r: String, stem: Seq<char>)
    requires
        call_ensures(interpreter, (script, python), r),
    ensures
        script@ == stem + ".mjs"@ ==> r@ == "node"@,
        r@ != "node"@ ==> r@ == python@,
        (forall|front: Seq<char>| script@ != #[trigger] (front + ".mjs"@)) ==> r@ == python@,
{
    if script@ == stem + ".mjs"@ {
        assert(script@.skip(script@.len() - ".mjs"@.len()) =~= ".mjs"@);
    }
    if ends_with(script@, ".mjs"@) {
        let front = script@.take(script@.len() - ".mjs"@.len());
        assert(front + ".mjs"@ =~= script@);
    }
}

/// A script is told what it is run on: each flag stands before its value, and the
/// documents are cut as they are for the other engines.
pub proof fn law_scripts_are_told(
    script: &str,
    model: &str,
    corpus: &str,
    reps: usize,
    r: Vec<String>,
)
    requires
        call_ensures(scripted_args, (script, model, corpus, reps), r),
    ensures
        r@.len() == 11,
        r@[0]@ == script@,
        r@[1]@ == "--model"@ && r@[2]@ == model@,
        r@[3]@ == "--corpus"@ && r@[4]@ == corpus@,
        r@[5]@ == "--reps"@ && r@[6]@ == decimal(reps as nat),
        r@[7]@ == "--chunk-bytes"@ && r@[8]@ == decimal(10240),
        r@[9]@ == "--max-chunks"@ && r@[10]@ == decimal(100),
{
    let c = contents(r@);
    assert(c.len() == 11);
    assert(c[0] == r@[0]@ && c[1] == r@[1]@ && c[2] == r@[2]@ && c[3] == r@[3]@);
    assert(c[4] == r@[4]@ && c[5] == r@[5]@ && c[6] == r@[6]@ && c[7] == r@[7]@);
    assert(c[8] == r@[8]@ && c[9] == r@[9]@ && c[10] == r@[10]@);
}

/// A name is listed where it stands in the list, at any place.
pub proof fn law_listed_names(list: &Vec<String>, name: &str, r: bool)
    requires
        call_ensures(listed, (list, name), r),
    ensures
        r <==> exists|k: int| 0 <= k < list@.len() && (#[trigger] list@[k])@ == name@,
{
    lemma_stands(list@, name@);
}

/// Where nothing is left to run on, it is said where it was looked for.
pub proof fn law_missing_inputs_are_named(dir: &str, models: String, corpora: String)
    requires
        call_ensures(no_models, (dir,), models),
        call_ensures(no_corpora, (dir,), corpora),
    ensures
        models@ == "no selected model directories under "@ + dir@
            + " \u{2014} run `make models` or check --model"@,
        corpora@ == "no selected .txt corpora under "@ + dir@
            + " \u{2014} run `make fixtures` or check --corpus"@,
{
}

}
