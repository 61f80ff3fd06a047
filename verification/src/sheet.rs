//! The table of a whole measurement: its headers, its rows and how it is laid
//! out.

use crate::cli::MeasureCommand;
use crate::collapse::{are_collapsed_cells, plain, push_collapsed_cells, Compared};
use crate::layout::{lemma_some_sorted_set, sorted_set, the_sorted_set};
use crate::order::text_at_most;
use crate::report::{EngineResult, Run};
use crate::scan::contents;
use crate::table::{behind, push_result_cells, result_cells, shown, Cell, Shown};
use crate::text::same;
use vstd::prelude::*;
use vstd::string::StringExecFns;

verus! {

/// A table before its cells are text.
pub struct Sheet {
    pub headers: Vec<String>,
    pub rows: Vec<Vec<Cell>>,
    /// How many columns are labels.
    pub labels: usize,
    /// Whether the last column is aligned like the others.
    pub align_last: bool,
    /// Whether the engines become columns.
    pub pivot: bool,
}

/// The cells of every row.
pub open spec fn shown_rows(rows: Seq<Vec<Cell>>) -> Seq<Seq<Shown>> {
    rows.map_values(|r: Vec<Cell>| shown(r@))
}

// ---------------------------------------------------------------------------
// Headers
// ---------------------------------------------------------------------------

/// A header with a name and a padding mode in it.
pub open spec fn padded(front: Seq<char>, padding: Seq<char>) -> Seq<char> {
    front + " [pad "@ + padding + "]"@
}

/// The headers of the columns that compare with another engine.
pub open spec fn comparison_headers(measurement: MeasureCommand, other: Seq<char>) -> Seq<
    Seq<char>,
> {
    match measurement {
        MeasureCommand::Latency => seq!["p50 vs "@ + other, "p99 vs "@ + other],
        MeasureCommand::Scaling => seq![
            padded("1T vs "@ + other, "off"@),
            padded("max vs "@ + other, "off"@),
            padded("1T vs "@ + other, "longest"@),
            padded("max vs "@ + other, "longest"@),
        ],
        MeasureCommand::Memory => seq!["loaded heap vs "@ + other, "working heap vs "@ + other],
        _ => seq!["vs "@ + other],
    }
}

/// The headers of the values of one corpus.
pub open spec fn value_headers(measurement: MeasureCommand) -> Seq<Seq<char>> {
    match measurement {
        MeasureCommand::Encode => seq!["MB/s"@, "ns/B"@, "tokens"@],
        MeasureCommand::Decode => seq!["MB/s"@, "ns/token"@],
        MeasureCommand::Latency => seq!["p50 us"@, "p99 us"@, "samples"@],
        MeasureCommand::Scaling => seq![
            padded("1T MB/s"@, "off"@),
            padded("max MB/s"@, "off"@),
            padded("scaling"@, "off"@),
            padded("1T MB/s"@, "longest"@),
            padded("max MB/s"@, "longest"@),
            padded("scaling"@, "longest"@),
        ],
        MeasureCommand::Memory => seq!["loaded MB"@, "working MB"@, "workers"@, "parallelism"@],
    }
}

/// The headers of the values over several corpora.
pub open spec fn median_headers(measurement: MeasureCommand) -> Seq<Seq<char>> {
    match measurement {
        MeasureCommand::Encode => seq!["median MB/s"@, "median ns/B"@],
        MeasureCommand::Decode => seq!["median MB/s"@, "median ns/token"@],
        MeasureCommand::Latency => seq!["median p50 us"@, "median p99 us"@, "samples"@],
        MeasureCommand::Scaling => seq![
            padded("median 1T MB/s"@, "off"@),
            padded("median max MB/s"@, "off"@),
            padded("median scaling"@, "off"@),
            padded("median 1T MB/s"@, "longest"@),
            padded("median max MB/s"@, "longest"@),
            padded("median scaling"@, "longest"@),
        ],
        MeasureCommand::Memory => seq!["median loaded MB"@, "median working MB"@, "workers"@],
    }
}

/// The label headers.
pub open spec fn label_headers(show_engine: bool) -> Seq<Seq<char>> {
    if show_engine {
        seq!["model"@, "engine"@]
    } else {
        seq!["model"@]
    }
}

/// All headers of the table of one corpus.
pub open spec fn single_headers(
    measurement: MeasureCommand,
    show_engine: bool,
    compare_to: Option<Seq<char>>,
) -> Seq<Seq<char>> {
    label_headers(show_engine) + value_headers(measurement) + match compare_to {
        Some(other) => comparison_headers(measurement, other),
        None => seq!["status"@],
    }
}

/// All headers of the table over several corpora.
pub open spec fn collapsed_headers(
    measurement: MeasureCommand,
    show_engine: bool,
    compare_to: Option<Seq<char>>,
) -> Seq<Seq<char>> {
    label_headers(show_engine) + seq!["corpora"@] + median_headers(measurement) + match compare_to {
        Some(other) => comparison_headers(measurement, other),
        None => Seq::empty(),
    }
}

fn push_text(list: &mut Vec<String>, s: &str)
    ensures
        contents(final(list)@) == contents(old(list)@).push(s@),
{
    list.push(s.to_owned());
    assert(contents(list@) =~= contents(old(list)@).push(s@));
}

fn push_joined(list: &mut Vec<String>, front: &str, back: &str)
    ensures
        contents(final(list)@) == contents(old(list)@).push(front@ + back@),
{
    let mut s = front.to_owned();
    s.append(back);
    list.push(s);
    assert(contents(list@) =~= contents(old(list)@).push(front@ + back@));
}

fn push_padded(list: &mut Vec<String>, front: &str, other: &str, padding: &str)
    ensures
        contents(final(list)@) == contents(old(list)@).push(padded(front@ + other@, padding@)),
{
    let mut s = front.to_owned();
    s.append(other);
    s.append(" [pad ");
    s.append(padding);
    s.append("]");
    list.push(s);
    assert(contents(list@) =~= contents(old(list)@).push(padded(front@ + other@, padding@)));
}

fn push_mode(list: &mut Vec<String>, front: &str, padding: &str)
    ensures
        contents(final(list)@) == contents(old(list)@).push(padded(front@, padding@)),
{
    let mut s = front.to_owned();
    s.append(" [pad ");
    s.append(padding);
    s.append("]");
    list.push(s);
    assert(contents(list@) =~= contents(old(list)@).push(padded(front@, padding@)));
}

fn push_labels(list: &mut Vec<String>, show_engine: bool)
    ensures
        contents(final(list)@) == contents(old(list)@) + label_headers(show_engine),
{
    push_text(list, "model");
    if show_engine {
        push_text(list, "engine");
    }
    assert(contents(list@) =~= contents(old(list)@) + label_headers(show_engine));
}

fn push_comparison(list: &mut Vec<String>, measurement: MeasureCommand, other: &str)
    ensures
        contents(final(list)@) == contents(old(list)@) + comparison_headers(measurement, other@),
{
    match measurement {
        MeasureCommand::Latency => {
            push_joined(list, "p50 vs ", other);
            push_joined(list, "p99 vs ", other);
        },
        MeasureCommand::Scaling => {
            push_padded(list, "1T vs ", other, "off");
            push_padded(list, "max vs ", other, "off");
            push_padded(list, "1T vs ", other, "longest");
            push_padded(list, "max vs ", other, "longest");
        },
        MeasureCommand::Memory => {
            push_joined(list, "loaded heap vs ", other);
            push_joined(list, "working heap vs ", other);
        },
        _ => {
            push_joined(list, "vs ", other);
        },
    }
    assert(contents(list@) =~= contents(old(list)@) + comparison_headers(measurement, other@));
}

fn push_values(list: &mut Vec<String>, measurement: MeasureCommand)
    ensures
        contents(final(list)@) == contents(old(list)@) + value_headers(measurement),
{
    match measurement {
        MeasureCommand::Encode => {
            push_text(list, "MB/s");
            push_text(list, "ns/B");
            push_text(list, "tokens");
        },
        MeasureCommand::Decode => {
            push_text(list, "MB/s");
            push_text(list, "ns/token");
        },
        MeasureCommand::Latency => {
            push_text(list, "p50 us");
            push_text(list, "p99 us");
            push_text(list, "samples");
        },
        MeasureCommand::Scaling => {
            push_mode(list, "1T MB/s", "off");
            push_mode(list, "max MB/s", "off");
            push_mode(list, "scaling", "off");
            push_mode(list, "1T MB/s", "longest");
            push_mode(list, "max MB/s", "longest");
            push_mode(list, "scaling", "longest");
        },
        MeasureCommand::Memory => {
            push_text(list, "loaded MB");
            push_text(list, "working MB");
            push_text(list, "workers");
            push_text(list, "parallelism");
        },
    }
    assert(contents(list@) =~= contents(old(list)@) + value_headers(measurement));
}

fn push_medians(list: &mut Vec<String>, measurement: MeasureCommand)
    ensures
        contents(final(list)@) == contents(old(list)@) + median_headers(measurement),
{
    match measurement {
        MeasureCommand::Encode => {
            push_text(list, "median MB/s");
            push_text(list, "median ns/B");
        },
        MeasureCommand::Decode => {
            push_text(list, "median MB/s");
            push_text(list, "median ns/token");
        },
        MeasureCommand::Latency => {
            push_text(list, "median p50 us");
            push_text(list, "median p99 us");
            push_text(list, "samples");
        },
        MeasureCommand::Scaling => {
            push_mode(list, "median 1T MB/s", "off");
            push_mode(list, "median max MB/s", "off");
            push_mode(list, "median scaling", "off");
            push_mode(list, "median 1T MB/s", "longest");
            push_mode(list, "median max MB/s", "longest");
            push_mode(list, "median scaling", "longest");
        },
        MeasureCommand::Memory => {
            push_text(list, "median loaded MB");
            push_text(list, "median working MB");
            push_text(list, "workers");
        },
    }
    assert(contents(list@) =~= contents(old(list)@) + median_headers(measurement));
}

// ---------------------------------------------------------------------------
// Which results, which engines
// ---------------------------------------------------------------------------

/// A name to leave out, as a value of the contracts.
pub open spec fn name_of(compare_to: Option<&str>) -> Option<Seq<char>> {
    match compare_to {
        Some(name) => Some(name@),
        None => None,
    }
}

/// Whether a name is the one left out.
pub open spec fn is_other(name: Seq<char>, compare_to: Option<Seq<char>>) -> bool {
    compare_to == Some(name)
}

fn names_other(name: &str, compare_to: Option<&str>) -> (r: bool)
    ensures
        r == is_other(name@, name_of(compare_to)),
{
    match compare_to {
        Some(other) => same(name, other),
        None => false,
    }
}

/// The engines of a cell, the comparator left out.
pub open spec fn names_in(results: Seq<EngineResult>, compare_to: Option<Seq<char>>) -> Seq<
    Seq<char>,
>
    decreases results.len(),
{
    if results.len() == 0 {
        Seq::empty()
    } else if is_other(results.last().tokenizer_name@, compare_to) {
        names_in(results.drop_last(), compare_to)
    } else {
        names_in(results.drop_last(), compare_to).push(results.last().tokenizer_name@)
    }
}

/// The engines of all cells, or of the cells of one model.
pub open spec fn names_of(
    runs: Seq<Run>,
    model: Option<Seq<char>>,
    compare_to: Option<Seq<char>>,
) -> Seq<Seq<char>>
    decreases runs.len(),
{
    if runs.len() == 0 {
        Seq::empty()
    } else if model is None || model->0 == runs.last().dataset_metadata.model@ {
        names_of(runs.drop_last(), model, compare_to) + names_in(
            runs.last().results@,
            compare_to,
        )
    } else {
        names_of(runs.drop_last(), model, compare_to)
    }
}

/// The models of the cells that have an engine besides the comparator.
pub open spec fn models_of(runs: Seq<Run>, compare_to: Option<Seq<char>>) -> Seq<Seq<char>>
    decreases runs.len(),
{
    if runs.len() == 0 {
        Seq::empty()
    } else if names_in(runs.last().results@, compare_to).len() > 0 {
        models_of(runs.drop_last(), compare_to).push(runs.last().dataset_metadata.model@)
    } else {
        models_of(runs.drop_last(), compare_to)
    }
}

/// The corpora of all cells.
pub open spec fn corpora_of(runs: Seq<Run>) -> Seq<Seq<char>> {
    runs.map_values(|r: Run| r.dataset_metadata.corpus@)
}

/// Whether a list holds two different texts.
pub open spec fn has_two(list: Seq<Seq<char>>) -> bool {
    exists|i: int, j: int|
        0 <= i < list.len() && 0 <= j < list.len() && #[trigger] list[i] != #[trigger] list[j]
}

fn differs(list: &Vec<String>) -> (r: bool)
    ensures
        r == has_two(contents(list@)),
{
    let ghost c = contents(list@);
    let mut i: usize = 0;
    while i < list.len()
        invariant
            i <= list@.len(),
            c == contents(list@),
            forall|k: int| 0 <= k < i ==> #[trigger] c[k] == c[0],
        decreases list@.len() - i,
    {
        if !same(list[i].as_str(), list[0].as_str()) {
            assert(c[i as int] != c[0]);
            return true;
        }
        i = i + 1;
    }
    false
}

fn push_names(results: &Vec<EngineResult>, compare_to: Option<&str>, list: &mut Vec<String>)
    ensures
        contents(final(list)@) == contents(old(list)@) + names_in(
            results@,
            name_of(compare_to),
        ),
{
    let ghost start = contents(list@);
    let ghost other = name_of(compare_to);
    let mut i: usize = 0;
    assert(results@.take(0) =~= Seq::empty());
    assert(start + Seq::empty() =~= start);
    while i < results.len()
        invariant
            i <= results@.len(),
            other == name_of(compare_to),
            contents(list@) =~= start + names_in(results@.take(i as int), other),
        decreases results@.len() - i,
    {
        assert(results@.take(i + 1).drop_last() =~= results@.take(i as int));
        if !names_other(results[i].tokenizer_name.as_str(), compare_to) {
            let ghost was = contents(list@);
            list.push(results[i].tokenizer_name.clone());
            assert(contents(list@) =~= was.push(results@[i as int].tokenizer_name@));
        }
        i = i + 1;
    }
    assert(results@.take(results@.len() as int) =~= results@);
}

fn all_names(runs: &Vec<Run>, model: Option<&str>, compare_to: Option<&str>) -> (list: Vec<String>)
    ensures
        contents(list@) == names_of(runs@, name_of(model), name_of(compare_to)),
{
    let ghost m = name_of(model);
    let ghost other = name_of(compare_to);
    let mut list: Vec<String> = Vec::new();
    let mut i: usize = 0;
    assert(runs@.take(0) =~= Seq::empty());
    while i < runs.len()
        invariant
            i <= runs@.len(),
            m == name_of(model),
            other == name_of(compare_to),
            contents(list@) =~= names_of(runs@.take(i as int), m, other),
        decreases runs@.len() - i,
    {
        assert(runs@.take(i + 1).drop_last() =~= runs@.take(i as int));
        let wanted = match model {
            Some(name) => same(name, runs[i].dataset_metadata.model.as_str()),
            None => true,
        };
        if wanted {
            push_names(&runs[i].results, compare_to, &mut list);
        }
        i = i + 1;
    }
    assert(runs@.take(runs@.len() as int) =~= runs@);
    list
}

fn all_models(runs: &Vec<Run>, compare_to: Option<&str>) -> (list: Vec<String>)
    ensures
        contents(list@) == models_of(runs@, name_of(compare_to)),
{
    let ghost other = name_of(compare_to);
    let mut list: Vec<String> = Vec::new();
    let mut i: usize = 0;
    assert(runs@.take(0) =~= Seq::empty());
    while i < runs.len()
        invariant
            i <= runs@.len(),
            other == name_of(compare_to),
            contents(list@) =~= models_of(runs@.take(i as int), other),
        decreases runs@.len() - i,
    {
        assert(runs@.take(i + 1).drop_last() =~= runs@.take(i as int));
        let mut names: Vec<String> = Vec::new();
        push_names(&runs[i].results, compare_to, &mut names);
        assert(contents(names@) =~= names_in(runs@[i as int].results@, other));
        assert(contents(names@).len() == names@.len());
        if names.len() > 0 {
            let ghost was = contents(list@);
            list.push(runs[i].dataset_metadata.model.clone());
            assert(contents(list@) =~= was.push(runs@[i as int].dataset_metadata.model@));
        }
        i = i + 1;
    }
    assert(runs@.take(runs@.len() as int) =~= runs@);
    list
}

fn all_corpora(runs: &Vec<Run>) -> (list: Vec<String>)
    ensures
        contents(list@) == corpora_of(runs@),
{
    let mut list: Vec<String> = Vec::new();
    let mut i: usize = 0;
    while i < runs.len()
        invariant
            i <= runs@.len(),
            list@.len() == i,
            forall|k: int| 0 <= k < i ==> (#[trigger] list@[k])@ == corpora_of(runs@)[k],
        decreases runs@.len() - i,
    {
        list.push(runs[i].dataset_metadata.corpus.clone());
        i = i + 1;
    }
    assert(contents(list@) =~= corpora_of(runs@));
    list
}

/// The comparator's result in a cell, if it is there.
pub open spec fn comparator_in(results: Seq<EngineResult>, compare_to: Option<Seq<char>>) -> Option<
    EngineResult,
>
    decreases results.len(),
{
    if results.len() == 0 {
        None
    } else if is_other(results[0].tokenizer_name@, compare_to) {
        Some(results[0])
    } else {
        comparator_in(results.drop_first(), compare_to)
    }
}

fn find_comparator<'a>(results: &'a Vec<EngineResult>, compare_to: Option<&str>) -> (r: Option<
    &'a EngineResult,
>)
    ensures
        behind(r) == comparator_in(results@, name_of(compare_to)),
{
    let mut i: usize = 0;
    assert(results@.skip(0) =~= results@);
    while i < results.len()
        invariant
            i <= results@.len(),
            comparator_in(results@, name_of(compare_to)) == comparator_in(
                results@.skip(i as int),
                name_of(compare_to),
            ),
        decreases results@.len() - i,
    {
        if names_other(results[i].tokenizer_name.as_str(), compare_to) {
            return Some(&results[i]);
        }
        assert(results@.skip(i as int).drop_first() =~= results@.skip(i + 1));
        i = i + 1;
    }
    None
}

// ---------------------------------------------------------------------------
// One corpus
// ---------------------------------------------------------------------------

/// The label cells of a row.
pub open spec fn label_cells(model: String, engine: String, show_engine: bool) -> Seq<Shown> {
    if show_engine {
        seq![Shown::Plain(Cell::Text(model)), Shown::Plain(Cell::Text(engine))]
    } else {
        seq![Shown::Plain(Cell::Text(model))]
    }
}

/// The row of one result.
pub open spec fn result_row(
    run: Run,
    r: EngineResult,
    measurement: MeasureCommand,
    show_engine: bool,
    compare_to: Option<Seq<char>>,
) -> Seq<Shown> {
    label_cells(run.dataset_metadata.model, r.tokenizer_name, show_engine) + shown(
        result_cells(
            r,
            comparator_in(run.results@, compare_to),
            measurement,
            compare_to is Some,
        ),
    )
}

/// The rows of the first `n` results of a cell, the comparator left out.
pub open spec fn cell_rows(
    run: Run,
    n: nat,
    measurement: MeasureCommand,
    show_engine: bool,
    compare_to: Option<Seq<char>>,
) -> Seq<Seq<Shown>>
    decreases n,
{
    if n == 0 {
        Seq::empty()
    } else {
        let so_far = cell_rows(run, (n - 1) as nat, measurement, show_engine, compare_to);
        let r = run.results@[n - 1];
        if is_other(r.tokenizer_name@, compare_to) {
            so_far
        } else {
            so_far.push(result_row(run, r, measurement, show_engine, compare_to))
        }
    }
}

/// The rows of all cells.
pub open spec fn single_rows(
    runs: Seq<Run>,
    measurement: MeasureCommand,
    show_engine: bool,
    compare_to: Option<Seq<char>>,
) -> Seq<Seq<Shown>>
    decreases runs.len(),
{
    if runs.len() == 0 {
        Seq::empty()
    } else {
        let run = runs.last();
        single_rows(runs.drop_last(), measurement, show_engine, compare_to) + cell_rows(
            run,
            run.results@.len(),
            measurement,
            show_engine,
            compare_to,
        )
    }
}

fn push_cell_rows(
    run: &Run,
    measurement: MeasureCommand,
    show_engine: bool,
    compare_to: Option<&str>,
    rows: &mut Vec<Vec<Cell>>,
)
    ensures
        shown_rows(final(rows)@) == shown_rows(old(rows)@) + cell_rows(
            *run,
            run.results@.len(),
            measurement,
            show_engine,
            name_of(compare_to),
        ),
{
    let ghost start = shown_rows(rows@);
    let ghost other = name_of(compare_to);
    let comparator = find_comparator(&run.results, compare_to);
    let mut i: usize = 0;
    assert(start + Seq::empty() =~= start);
    while i < run.results.len()
        invariant
            i <= run.results@.len(),
            other == name_of(compare_to),
            behind(comparator) == comparator_in(run.results@, other),
            shown_rows(rows@) =~= start + cell_rows(
                *run,
                i as nat,
                measurement,
                show_engine,
                other,
            ),
        decreases run.results@.len() - i,
    {
        let r = &run.results[i];
        if !names_other(r.tokenizer_name.as_str(), compare_to) {
            let mut row: Vec<Cell> = Vec::new();
            row.push(Cell::Text(run.dataset_metadata.model.clone()));
            if show_engine {
                row.push(Cell::Text(r.tokenizer_name.clone()));
            }
            let ghost labels = row@;
            push_result_cells(r, comparator, measurement, compare_to.is_some(), &mut row);
            let ghost was = shown_rows(rows@);
            assert(shown(labels) =~= label_cells(
                run.dataset_metadata.model,
                r.tokenizer_name,
                show_engine,
            ));
            assert(shown(row@) =~= result_row(*run, *r, measurement, show_engine, other));
            rows.push(row);
            assert(shown_rows(rows@) =~= was.push(
                result_row(*run, *r, measurement, show_engine, other),
            ));
        }
        i = i + 1;
    }
}

// ---------------------------------------------------------------------------
// Several corpora
// ---------------------------------------------------------------------------

/// The entries of one engine in a cell.
pub open spec fn entries_in(
    results: Seq<EngineResult>,
    engine: Seq<char>,
    other: Option<EngineResult>,
) -> Seq<(EngineResult, Option<EngineResult>)>
    decreases results.len(),
{
    if results.len() == 0 {
        Seq::empty()
    } else if results.last().tokenizer_name@ == engine {
        entries_in(results.drop_last(), engine, other).push((results.last(), other))
    } else {
        entries_in(results.drop_last(), engine, other)
    }
}

/// The entries of one model and engine over all cells.
pub open spec fn entries_of(
    runs: Seq<Run>,
    model: Seq<char>,
    engine: Seq<char>,
    compare_to: Option<Seq<char>>,
) -> Seq<(EngineResult, Option<EngineResult>)>
    decreases runs.len(),
{
    if runs.len() == 0 {
        Seq::empty()
    } else {
        let run = runs.last();
        let so_far = entries_of(runs.drop_last(), model, engine, compare_to);
        if run.dataset_metadata.model@ == model {
            so_far + entries_in(run.results@, engine, comparator_in(run.results@, compare_to))
        } else {
            so_far
        }
    }
}

/// The number of cells of a model.
pub open spec fn cells_of(runs: Seq<Run>, model: Seq<char>) -> nat
    decreases runs.len(),
{
    if runs.len() == 0 {
        0
    } else {
        cells_of(runs.drop_last(), model) + if runs.last().dataset_metadata.model@ == model {
            1nat
        } else {
            0
        }
    }
}

/// Whether a row is that of one model and engine.
pub open spec fn is_collapsed_row(
    runs: Seq<Run>,
    model: Seq<char>,
    engine: Seq<char>,
    measurement: MeasureCommand,
    show_engine: bool,
    compare_to: Option<Seq<char>>,
    row: Seq<Shown>,
) -> bool {
    exists|m: String, e: String, cells: Seq<Shown>|
        m@ == model && e@ == engine && #[trigger] are_collapsed_cells(
            entries_of(runs, model, engine, compare_to),
            measurement,
            compare_to is Some,
            cells_of(runs, model) as usize,
            cells,
        ) && row == #[trigger] label_cells(m, e, show_engine) + cells
}

/// The engines of a model, in order.
pub open spec fn engines_of(
    runs: Seq<Run>,
    model: Seq<char>,
    compare_to: Option<Seq<char>>,
) -> Seq<Seq<char>> {
    the_sorted_set(names_of(runs, Some(model), compare_to))
}

/// The pairs of model and engine that have a row, in order: the first `k`
/// models of a list, each with its engines.
pub open spec fn row_keys(
    runs: Seq<Run>,
    models: Seq<Seq<char>>,
    compare_to: Option<Seq<char>>,
) -> Seq<(Seq<char>, Seq<char>)>
    decreases models.len(),
{
    if models.len() == 0 {
        Seq::empty()
    } else {
        row_keys(runs, models.drop_last(), compare_to) + engines_of(
            runs,
            models.last(),
            compare_to,
        ).map_values(|e: Seq<char>| (models.last(), e))
    }
}

/// Whether rows are those of these pairs, in order.
pub open spec fn are_collapsed_rows(
    runs: Seq<Run>,
    keys: Seq<(Seq<char>, Seq<char>)>,
    measurement: MeasureCommand,
    show_engine: bool,
    compare_to: Option<Seq<char>>,
    rows: Seq<Seq<Shown>>,
) -> bool {
    &&& rows.len() == keys.len()
    &&& forall|i: int|
        0 <= i < keys.len() ==> is_collapsed_row(
            runs,
            (#[trigger] keys[i]).0,
            keys[i].1,
            measurement,
            show_engine,
            compare_to,
            rows[i],
        )
}

fn collect_entries<'a>(
    runs: &'a Vec<Run>,
    model: &str,
    engine: &str,
    compare_to: Option<&str>,
) -> (entries: Vec<Compared<'a>>)
    ensures
        plain(entries@) == entries_of(runs@, model@, engine@, name_of(compare_to)),
{
    let ghost other = name_of(compare_to);
    let mut entries: Vec<Compared<'a>> = Vec::new();
    let mut i: usize = 0;
    assert(runs@.take(0) =~= Seq::empty());
    while i < runs.len()
        invariant
            i <= runs@.len(),
            other == name_of(compare_to),
            plain(entries@) =~= entries_of(runs@.take(i as int), model@, engine@, other),
        decreases runs@.len() - i,
    {
        assert(runs@.take(i + 1).drop_last() =~= runs@.take(i as int));
        if same(runs[i].dataset_metadata.model.as_str(), model) {
            let results = &runs[i].results;
            let comparator = find_comparator(results, compare_to);
            let ghost start = plain(entries@);
            let ghost o = comparator_in(results@, other);
            let mut j: usize = 0;
            assert(results@.take(0) =~= Seq::empty());
            assert(start + Seq::empty() =~= start);
            while j < results.len()
                invariant
                    j <= results@.len(),
                    behind(comparator) == o,
                    plain(entries@) =~= start + entries_in(results@.take(j as int), engine@, o),
                decreases results@.len() - j,
            {
                assert(results@.take(j + 1).drop_last() =~= results@.take(j as int));
                if same(results[j].tokenizer_name.as_str(), engine) {
                    let ghost was = plain(entries@);
                    entries.push((&results[j], comparator));
                    assert(plain(entries@) =~= was.push((results@[j as int], o)));
                }
                j = j + 1;
            }
            assert(results@.take(results@.len() as int) =~= results@);
        }
        i = i + 1;
    }
    assert(runs@.take(runs@.len() as int) =~= runs@);
    entries
}

fn count_cells(runs: &Vec<Run>, model: &str) -> (n: usize)
    ensures
        n == cells_of(runs@, model@),
{
    let mut n: usize = 0;
    let mut i: usize = 0;
    assert(runs@.take(0) =~= Seq::empty());
    while i < runs.len()
        invariant
            i <= runs@.len(),
            n <= i,
            n == cells_of(runs@.take(i as int), model@),
        decreases runs@.len() - i,
    {
        assert(runs@.take(i + 1).drop_last() =~= runs@.take(i as int));
        if same(runs[i].dataset_metadata.model.as_str(), model) {
            n = n + 1;
        }
        i = i + 1;
    }
    assert(runs@.take(runs@.len() as int) =~= runs@);
    n
}

fn collapsed_row(
    runs: &Vec<Run>,
    model: &String,
    engine: &String,
    measurement: MeasureCommand,
    show_engine: bool,
    compare_to: Option<&str>,
) -> (row: Vec<Cell>)
    ensures
        is_collapsed_row(
            runs@,
            model@,
            engine@,
            measurement,
            show_engine,
            name_of(compare_to),
            shown(row@),
        ),
{
    let ghost other = name_of(compare_to);
    let entries = collect_entries(runs, model.as_str(), engine.as_str(), compare_to);
    let expected: usize = count_cells(runs, model.as_str());
    let mut row: Vec<Cell> = Vec::new();
    row.push(Cell::Text(model.clone()));
    if show_engine {
        row.push(Cell::Text(engine.clone()));
    }
    let ghost labels = label_cells(*model, *engine, show_engine);
    assert(shown(row@) =~= labels);
    push_collapsed_cells(&entries, measurement, compare_to.is_some(), expected, &mut row);
    proof {
        let cells = choose|cells: Seq<Shown>| #[trigger]
            are_collapsed_cells(
                plain(entries@),
                measurement,
                compare_to.is_some(),
                expected,
                cells,
            ) && shown(row@) == labels + cells;
        assert(are_collapsed_cells(
            entries_of(runs@, model@, engine@, other),
            measurement,
            other is Some,
            cells_of(runs@, model@) as usize,
            cells,
        ));
        assert(shown(row@) == label_cells(*model, *engine, show_engine) + cells);
    }
    row
}

fn collapsed_rows(
    runs: &Vec<Run>,
    measurement: MeasureCommand,
    show_engine: bool,
    compare_to: Option<&str>,
) -> (rows: Vec<Vec<Cell>>)
    ensures
        are_collapsed_rows(
            runs@,
            row_keys(
                runs@,
                the_sorted_set(models_of(runs@, name_of(compare_to))),
                name_of(compare_to),
            ),
            measurement,
            show_engine,
            name_of(compare_to),
            shown_rows(rows@),
        ),
{
    let ghost other = name_of(compare_to);
    let models = sorted_set(&all_models(runs, compare_to));
    let ghost ms = contents(models@);
    let mut rows: Vec<Vec<Cell>> = Vec::new();
    let mut m: usize = 0;
    assert(ms.take(0) =~= Seq::empty());
    while m < models.len()
        invariant
            m <= models@.len(),
            ms == contents(models@),
            other == name_of(compare_to),
            are_collapsed_rows(
                runs@,
                row_keys(runs@, ms.take(m as int), other),
                measurement,
                show_engine,
                other,
                shown_rows(rows@),
            ),
        decreases models@.len() - m,
    {
        assert(ms.take(m + 1).drop_last() =~= ms.take(m as int));
        let ghost model = ms[m as int];
        let ghost before = row_keys(runs@, ms.take(m as int), other);
        let engines = sorted_set(&all_names(runs, Some(models[m].as_str()), compare_to));
        let ghost es = contents(engines@);
        let ghost start = rows@.len();
        let mut e: usize = 0;
        while e < engines.len()
            invariant
                e <= engines@.len(),
                m < models@.len(),
                ms == contents(models@),
                model == ms[m as int],
                es == contents(engines@),
                es == engines_of(runs@, model, other),
                other == name_of(compare_to),
                before == row_keys(runs@, ms.take(m as int), other),
                start == before.len(),
                rows@.len() == start + e,
                forall|i: int|
                    0 <= i < start ==> is_collapsed_row(
                        runs@,
                        (#[trigger] before[i]).0,
                        before[i].1,
                        measurement,
                        show_engine,
                        other,
                        shown_rows(rows@)[i],
                    ),
                forall|i: int|
                    0 <= i < e ==> is_collapsed_row(
                        runs@,
                        model,
                        #[trigger] es[i],
                        measurement,
                        show_engine,
                        other,
                        shown_rows(rows@)[start + i],
                    ),
            decreases engines@.len() - e,
        {
            let row = collapsed_row(
                runs,
                &models[m],
                &engines[e],
                measurement,
                show_engine,
                compare_to,
            );
            let ghost was = shown_rows(rows@);
            rows.push(row);
            assert(shown_rows(rows@) =~= was.push(shown(row@)));
            e = e + 1;
        }
        proof {
            let keys = row_keys(runs@, ms.take(m + 1), other);
            assert(keys =~= before + es.map_values(|e: Seq<char>| (model, e)));
            assert forall|i: int| 0 <= i < keys.len() implies is_collapsed_row(
                runs@,
                (#[trigger] keys[i]).0,
                keys[i].1,
                measurement,
                show_engine,
                other,
                shown_rows(rows@)[i],
            ) by {
                if i < start {
                    assert(keys[i] == before[i]);
                } else {
                    assert(keys[i] == (model, es[i - start]));
                    assert(shown_rows(rows@)[start + (i - start)] == shown_rows(rows@)[i]);
                }
            }
        }
        m = m + 1;
    }
    assert(ms.take(ms.len() as int) =~= ms);
    rows
}

// ---------------------------------------------------------------------------
// The table
// ---------------------------------------------------------------------------

/// Whether a sheet is the table of a measurement. Cells of more than one corpus
/// are put together; engines become columns where there is more than one.
pub open spec fn is_sheet(
    runs: Seq<Run>,
    measurement: MeasureCommand,
    compare_to: Option<Seq<char>>,
    sheet: Sheet,
) -> bool {
    let show_engine = has_two(names_of(runs, None, compare_to));
    &&& sheet.pivot == show_engine
    &&& if has_two(corpora_of(runs)) {
        &&& contents(sheet.headers@) == collapsed_headers(measurement, show_engine, compare_to)
        &&& sheet.labels == 1
        &&& sheet.align_last
        &&& are_collapsed_rows(
            runs,
            row_keys(runs, the_sorted_set(models_of(runs, compare_to)), compare_to),
            measurement,
            show_engine,
            compare_to,
            shown_rows(sheet.rows@),
        )
    } else {
        &&& contents(sheet.headers@) == single_headers(measurement, show_engine, compare_to)
        &&& sheet.labels == if show_engine {
            2usize
        } else {
            1
        }
        &&& sheet.align_last == (compare_to is Some)
        &&& shown_rows(sheet.rows@) == single_rows(runs, measurement, show_engine, compare_to)
    }
}

/// The table over several corpora.
fn collapsed_measurement_table(
    runs: &Vec<Run>,
    measurement: MeasureCommand,
    compare_to: Option<&str>,
    show_engine: bool,
) -> (sheet: Sheet)
    ensures
        contents(sheet.headers@) == collapsed_headers(
            measurement,
            show_engine,
            name_of(compare_to),
        ),
        sheet.labels == 1,
        sheet.align_last,
        sheet.pivot == show_engine,
        are_collapsed_rows(
            runs@,
            row_keys(
                runs@,
                the_sorted_set(models_of(runs@, name_of(compare_to))),
                name_of(compare_to),
            ),
            measurement,
            show_engine,
            name_of(compare_to),
            shown_rows(sheet.rows@),
        ),
{
    let mut headers: Vec<String> = Vec::new();
    assert(contents(headers@) =~= Seq::empty());
    push_labels(&mut headers, show_engine);
    push_text(&mut headers, "corpora");
    push_medians(&mut headers, measurement);
    if let Some(other) = compare_to {
        push_comparison(&mut headers, measurement, other);
    }
    assert(contents(headers@) =~= collapsed_headers(
        measurement,
        show_engine,
        name_of(compare_to),
    ));
    let rows = collapsed_rows(runs, measurement, show_engine, compare_to);
    Sheet { headers, rows, labels: 1, align_last: true, pivot: show_engine }
}

/// The table of a measurement.
pub fn measurement_table(
    runs: &Vec<Run>,
    measurement: MeasureCommand,
    compare_to: Option<&str>,
) -> (sheet: Sheet)
    ensures
        is_sheet(runs@, measurement, name_of(compare_to), sheet),
{
    let ghost other = name_of(compare_to);
    let show_corpus = differs(&all_corpora(runs));
    let show_engine = differs(&all_names(runs, None, compare_to));
    if show_corpus {
        return collapsed_measurement_table(runs, measurement, compare_to, show_engine);
    }
    let mut headers: Vec<String> = Vec::new();
    assert(contents(headers@) =~= Seq::empty());
    push_labels(&mut headers, show_engine);
    push_values(&mut headers, measurement);
    match compare_to {
        Some(name) => {
            push_comparison(&mut headers, measurement, name);
        },
        None => {
            push_text(&mut headers, "status");
        },
    }
    assert(contents(headers@) =~= single_headers(measurement, show_engine, other));
    let mut rows: Vec<Vec<Cell>> = Vec::new();
    let mut i: usize = 0;
    assert(runs@.take(0) =~= Seq::empty());
    assert(shown_rows(rows@) =~= Seq::empty());
    while i < runs.len()
        invariant
            i <= runs@.len(),
            other == name_of(compare_to),
            shown_rows(rows@) == single_rows(
                runs@.take(i as int),
                measurement,
                show_engine,
                other,
            ),
        decreases runs@.len() - i,
    {
        assert(runs@.take(i + 1).drop_last() =~= runs@.take(i as int));
        push_cell_rows(&runs[i], measurement, show_engine, compare_to, &mut rows);
        i = i + 1;
    }
    assert(runs@.take(runs@.len() as int) =~= runs@);
    let labels: usize = if show_engine {
        2
    } else {
        1
    };
    Sheet { headers, rows, labels, align_last: compare_to.is_some(), pivot: show_engine }
}

// ---------------------------------------------------------------------------
// What a table says
// ---------------------------------------------------------------------------

proof fn lemma_flat_push<A>(list: Seq<Seq<A>>, last: Seq<A>)
    ensures
        list.push(last).flatten() == list.flatten() + last,
{
    list.lemma_flatten_and_flatten_alt_are_equivalent();
    list.push(last).lemma_flatten_and_flatten_alt_are_equivalent();
    assert(list.push(last).drop_last() =~= list);
}

/// The results of a cell that a table shows: all but those of the engine that the
/// others are compared with.
pub open spec fn listed(results: Seq<EngineResult>, compare_to: Option<Seq<char>>) -> Seq<
    EngineResult,
> {
    results.filter(|r: EngineResult| compare_to != Some(r.tokenizer_name@))
}

/// The engine that a cell is compared with is the first of its results under that
/// name; where there is none, or nothing to compare with, there is no other.
pub proof fn law_comparator(results: Seq<EngineResult>, compare_to: Option<Seq<char>>, k: int)
    requires
        0 <= k <= results.len(),
        forall|i: int|
            0 <= i < k ==> compare_to != Some((#[trigger] results[i]).tokenizer_name@),
        k < results.len() ==> compare_to == Some(results[k].tokenizer_name@),
    ensures
        k < results.len() ==> comparator_in(results, compare_to) == Some(results[k]),
        k == results.len() ==> comparator_in(results, compare_to) is None,
    decreases results.len(),
{
    if k > 0 {
        assert(compare_to != Some(results[0].tokenizer_name@));
        let rest = results.drop_first();
        assert forall|i: int| 0 <= i < k - 1 implies compare_to != Some(
            (#[trigger] rest[i]).tokenizer_name@,
        ) by {
            assert(rest[i] == results[i + 1]);
        }
        law_comparator(rest, compare_to, k - 1);
    }
}

proof fn lemma_cell_rows(
    run: Run,
    n: nat,
    measurement: MeasureCommand,
    show_engine: bool,
    compare_to: Option<Seq<char>>,
)
    requires
        n <= run.results@.len(),
    ensures
        cell_rows(run, n, measurement, show_engine, compare_to) == listed(
            run.results@.take(n as int),
            compare_to,
        ).map_values(
            |r: EngineResult| result_row(run, r, measurement, show_engine, compare_to),
        ),
    decreases n,
{
    reveal(Seq::filter);
    let all = run.results@;
    let f = |r: EngineResult| result_row(run, r, measurement, show_engine, compare_to);
    if n == 0 {
        assert(all.take(0) =~= Seq::empty());
        assert(cell_rows(run, n, measurement, show_engine, compare_to) =~= listed(
            all.take(0),
            compare_to,
        ).map_values(f));
    } else {
        let m = (n - 1) as nat;
        lemma_cell_rows(run, m, measurement, show_engine, compare_to);
        assert(all.take(n as int).drop_last() =~= all.take(m as int));
        let so_far = listed(all.take(m as int), compare_to);
        let r = all[m as int];
        assert(so_far.push(r).map_values(f) =~= so_far.map_values(f).push(f(r)));
    }
}

/// The table of one corpus has one row for every result but those compared with:
/// cell after cell, and in a cell result after result. A row starts with the
/// model, and with the engine where there is more than one, and goes on with what
/// is shown of that result beside the other engine's of the same cell.
pub proof fn law_table_of_one_corpus(
    runs: &Vec<Run>,
    measurement: MeasureCommand,
    compare_to: Option<&str>,
    sheet: Sheet,
)
    requires
        call_ensures(measurement_table, (runs, measurement, compare_to), sheet),
        forall|i: int, j: int|
            0 <= i < runs@.len() && 0 <= j < runs@.len() ==> (
            #[trigger] runs@[i]).dataset_metadata.corpus@ == (
            #[trigger] runs@[j]).dataset_metadata.corpus@,
    ensures
        ({
            let other = name_of(compare_to);
            shown_rows(sheet.rows@) == runs@.map_values(
                |run: Run|
                    listed(run.results@, other).map_values(
                        |r: EngineResult|
                            (if sheet.pivot {
                                seq![
                                    Shown::Plain(Cell::Text(run.dataset_metadata.model)),
                                    Shown::Plain(Cell::Text(r.tokenizer_name)),
                                ]
                            } else {
                                seq![Shown::Plain(Cell::Text(run.dataset_metadata.model))]
                            }) + shown(
                                result_cells(
                                    r,
                                    comparator_in(run.results@, other),
                                    measurement,
                                    compare_to is Some,
                                ),
                            ),
                    ),
            ).flatten()
        }),
        sheet.labels == if sheet.pivot {
            2usize
        } else {
            1
        },
        sheet.align_last == (compare_to is Some),
{
    let other = name_of(compare_to);
    if has_two(corpora_of(runs@)) {
        let (i, j) = choose|i: int, j: int|
            0 <= i < corpora_of(runs@).len() && 0 <= j < corpora_of(runs@).len()
                && #[trigger] corpora_of(runs@)[i] != #[trigger] corpora_of(runs@)[j];
        assert(runs@[i].dataset_metadata.corpus@ == runs@[j].dataset_metadata.corpus@);
    }
    lemma_single_rows(runs@, measurement, sheet.pivot, other);
    let f = |run: Run|
        listed(run.results@, other).map_values(
            |r: EngineResult| result_row(run, r, measurement, sheet.pivot, other),
        );
    let g = |run: Run|
        listed(run.results@, other).map_values(
            |r: EngineResult|
                (if sheet.pivot {
                    seq![
                        Shown::Plain(Cell::Text(run.dataset_metadata.model)),
                        Shown::Plain(Cell::Text(r.tokenizer_name)),
                    ]
                } else {
                    seq![Shown::Plain(Cell::Text(run.dataset_metadata.model))]
                }) + shown(
                    result_cells(
                        r,
                        comparator_in(run.results@, other),
                        measurement,
                        compare_to is Some,
                    ),
                ),
        );
    assert forall|run: Run| #[trigger] f(run) == g(run) by {
        assert(f(run) =~= g(run));
    }
    assert(runs@.map_values(f) =~= runs@.map_values(g));
}

proof fn lemma_single_rows(
    runs: Seq<Run>,
    measurement: MeasureCommand,
    show_engine: bool,
    compare_to: Option<Seq<char>>,
)
    ensures
        single_rows(runs, measurement, show_engine, compare_to) == runs.map_values(
            |run: Run|
                listed(run.results@, compare_to).map_values(
                    |r: EngineResult| result_row(run, r, measurement, show_engine, compare_to),
                ),
        ).flatten(),
    decreases runs.len(),
{
    let f = |run: Run|
        listed(run.results@, compare_to).map_values(
            |r: EngineResult| result_row(run, r, measurement, show_engine, compare_to),
        );
    if runs.len() == 0 {
        assert(runs.map_values(f) =~= Seq::empty());
        assert(runs.map_values(f).flatten() =~= Seq::empty());
    } else {
        let less = runs.drop_last();
        let run = runs.last();
        lemma_single_rows(less, measurement, show_engine, compare_to);
        lemma_cell_rows(run, run.results@.len(), measurement, show_engine, compare_to);
        assert(run.results@.take(run.results@.len() as int) =~= run.results@);
        assert(runs.map_values(f) =~= less.map_values(f).push(f(run)));
        lemma_flat_push(less.map_values(f), f(run));
    }
}

/// The results that a row over several corpora is made from: those of the engine
/// in the cells of the model, cell after cell, each beside the other engine's
/// result of its own cell. As many are expected as the model has cells.
pub proof fn law_entries_of_a_row(
    runs: Seq<Run>,
    model: Seq<char>,
    engine: Seq<char>,
    compare_to: Option<Seq<char>>,
)
    ensures
        entries_of(runs, model, engine, compare_to) == runs.filter(
            |run: Run| run.dataset_metadata.model@ == model,
        ).map_values(
            |run: Run|
                run.results@.filter(|r: EngineResult| r.tokenizer_name@ == engine).map_values(
                    |r: EngineResult| (r, comparator_in(run.results@, compare_to)),
                ),
        ).flatten(),
        cells_of(runs, model) == runs.filter(
            |run: Run| run.dataset_metadata.model@ == model,
        ).len(),
    decreases runs.len(),
{
    reveal(Seq::filter);
    let of_model = |run: Run| run.dataset_metadata.model@ == model;
    let f = |run: Run|
        run.results@.filter(|r: EngineResult| r.tokenizer_name@ == engine).map_values(
            |r: EngineResult| (r, comparator_in(run.results@, compare_to)),
        );
    if runs.len() == 0 {
        assert(runs.filter(of_model).map_values(f) =~= Seq::empty());
        assert(runs.filter(of_model).map_values(f).flatten() =~= Seq::empty());
    } else {
        let less = runs.drop_last();
        let run = runs.last();
        law_entries_of_a_row(less, model, engine, compare_to);
        if of_model(run) {
            let kept = less.filter(of_model);
            assert(runs.filter(of_model) =~= kept.push(run));
            assert(kept.push(run).map_values(f) =~= kept.map_values(f).push(f(run)));
            lemma_flat_push(kept.map_values(f), f(run));
            lemma_entries_in(run.results@, engine, comparator_in(run.results@, compare_to));
        }
    }
}

proof fn lemma_entries_in(
    results: Seq<EngineResult>,
    engine: Seq<char>,
    other: Option<EngineResult>,
)
    ensures
        entries_in(results, engine, other) == results.filter(
            |r: EngineResult| r.tokenizer_name@ == engine,
        ).map_values(|r: EngineResult| (r, other)),
    decreases results.len(),
{
    reveal(Seq::filter);
    let named = |r: EngineResult| r.tokenizer_name@ == engine;
    let f = |r: EngineResult| (r, other);
    if results.len() == 0 {
        assert(entries_in(results, engine, other) =~= results.filter(named).map_values(f));
    } else {
        let less = results.drop_last();
        lemma_entries_in(less, engine, other);
        let r = results.last();
        assert(less.filter(named).push(r).map_values(f) =~= less.filter(named).map_values(f).push(f(r)));
    }
}

/// Whether some result of a cell of a model is of an engine that is not the one
/// compared with.
pub open spec fn has_result(
    runs: Seq<Run>,
    model: Seq<char>,
    engine: Seq<char>,
    compare_to: Option<Seq<char>>,
) -> bool {
    compare_to != Some(engine) && exists|i: int, j: int|
        #![trigger runs[i].results@[j]]
        0 <= i < runs.len() && 0 <= j < runs[i].results@.len()
            && runs[i].dataset_metadata.model@ == model && runs[i].results@[j].tokenizer_name@
            == engine
}

proof fn lemma_names_in(results: Seq<EngineResult>, compare_to: Option<Seq<char>>, x: Seq<char>)
    ensures
        names_in(results, compare_to).contains(x) <==> compare_to != Some(x) && exists|j: int|
            0 <= j < results.len() && (#[trigger] results[j]).tokenizer_name@ == x,
    decreases results.len(),
{
    if results.len() > 0 {
        let less = results.drop_last();
        lemma_names_in(less, compare_to, x);
        let name = results.last().tokenizer_name@;
        let was = names_in(less, compare_to);
        if names_in(results, compare_to).contains(x) && compare_to != Some(name) {
            let k = choose|k: int| 0 <= k < was.push(name).len() && was.push(name)[k] == x;
            if k < was.len() {
                assert(was[k] == x);
            } else {
                assert(results[results.len() - 1].tokenizer_name@ == x);
            }
        }
        if names_in(less, compare_to).contains(x) {
            let j = choose|j: int|
                0 <= j < less.len() && (#[trigger] less[j]).tokenizer_name@ == x;
            assert(results[j].tokenizer_name@ == x);
            if compare_to != Some(name) {
                let k = choose|k: int| 0 <= k < was.len() && was[k] == x;
                assert(was.push(name)[k] == x);
            }
        }
        if compare_to != Some(x) && exists|j: int|
            0 <= j < results.len() && (#[trigger] results[j]).tokenizer_name@ == x {
            let j = choose|j: int|
                0 <= j < results.len() && (#[trigger] results[j]).tokenizer_name@ == x;
            if j < less.len() {
                assert(less[j].tokenizer_name@ == x);
                assert(was.contains(x));
                let k = choose|k: int| 0 <= k < was.len() && was[k] == x;
                if compare_to != Some(name) {
                    assert(was.push(name)[k] == x);
                }
            } else {
                assert(was.push(name)[was.len() as int] == x);
            }
        }
    }
}

proof fn lemma_names_of(
    runs: Seq<Run>,
    model: Seq<char>,
    compare_to: Option<Seq<char>>,
    engine: Seq<char>,
)
    ensures
        names_of(runs, Some(model), compare_to).contains(engine) <==> has_result(
            runs,
            model,
            engine,
            compare_to,
        ),
    decreases runs.len(),
{
    if runs.len() > 0 {
        let less = runs.drop_last();
        let run = runs.last();
        let last = runs.len() - 1;
        lemma_names_of(less, model, compare_to, engine);
        lemma_names_in(run.results@, compare_to, engine);
        let was = names_of(less, Some(model), compare_to);
        let more = names_in(run.results@, compare_to);
        if run.dataset_metadata.model@ == model {
            assert((was + more).contains(engine) <==> was.contains(engine) || more.contains(engine))
                by {
                if was.contains(engine) {
                    let k = choose|k: int| 0 <= k < was.len() && was[k] == engine;
                    assert((was + more)[k] == engine);
                }
                if more.contains(engine) {
                    let k = choose|k: int| 0 <= k < more.len() && more[k] == engine;
                    assert((was + more)[was.len() + k] == engine);
                }
                if (was + more).contains(engine) {
                    let k = choose|k: int|
                        0 <= k < (was + more).len() && (was + more)[k] == engine;
                    if k < was.len() {
                        assert(was[k] == engine);
                    } else {
                        assert(more[k - was.len()] == engine);
                    }
                }
            }
        }
        if has_result(less, model, engine, compare_to) {
            let (i, j) = choose|i: int, j: int|
                #![trigger less[i].results@[j]]
                0 <= i < less.len() && 0 <= j < less[i].results@.len()
                    && less[i].dataset_metadata.model@ == model
                    && less[i].results@[j].tokenizer_name@ == engine;
            assert(runs[i].results@[j].tokenizer_name@ == engine);
        }
        if run.dataset_metadata.model@ == model && more.contains(engine) {
            let j = choose|j: int|
                0 <= j < run.results@.len() && (#[trigger] run.results@[j]).tokenizer_name@
                    == engine;
            assert(runs[last].results@[j].tokenizer_name@ == engine);
        }
        if has_result(runs, model, engine, compare_to) {
            let (i, j) = choose|i: int, j: int|
                #![trigger runs[i].results@[j]]
                0 <= i < runs.len() && 0 <= j < runs[i].results@.len()
                    && runs[i].dataset_metadata.model@ == model
                    && runs[i].results@[j].tokenizer_name@ == engine;
            if i < less.len() {
                assert(less[i].results@[j].tokenizer_name@ == engine);
            } else {
                assert(run.results@[j].tokenizer_name@ == engine);
            }
        }
    }
}

proof fn lemma_models_of(runs: Seq<Run>, compare_to: Option<Seq<char>>, model: Seq<char>)
    ensures
        models_of(runs, compare_to).contains(model) <==> exists|engine: Seq<char>| #[trigger]
            has_result(runs, model, engine, compare_to),
    decreases runs.len(),
{
    if runs.len() > 0 {
        let less = runs.drop_last();
        let run = runs.last();
        let last = runs.len() - 1;
        lemma_models_of(less, compare_to, model);
        let was = models_of(less, compare_to);
        let here = run.dataset_metadata.model@;
        let names = names_in(run.results@, compare_to);
        if models_of(runs, compare_to).contains(model) {
            if names.len() > 0 && here == model {
                let engine = names[0];
                assert(names.contains(engine));
                lemma_names_in(run.results@, compare_to, engine);
                let j = choose|j: int|
                    0 <= j < run.results@.len() && (#[trigger] run.results@[j]).tokenizer_name@
                        == engine;
                assert(runs[last].results@[j].tokenizer_name@ == engine);
                assert(has_result(runs, model, engine, compare_to));
            } else {
                let all = models_of(runs, compare_to);
                let k = choose|k: int| 0 <= k < all.len() && all[k] == model;
                assert(was[k] == model);
                let engine = choose|engine: Seq<char>| #[trigger]
                    has_result(less, model, engine, compare_to);
                let (i, j) = choose|i: int, j: int|
                    #![trigger less[i].results@[j]]
                    0 <= i < less.len() && 0 <= j < less[i].results@.len()
                        && less[i].dataset_metadata.model@ == model
                        && less[i].results@[j].tokenizer_name@ == engine;
                assert(runs[i].results@[j].tokenizer_name@ == engine);
                assert(has_result(runs, model, engine, compare_to));
            }
        }
        if exists|engine: Seq<char>| #[trigger] has_result(runs, model, engine, compare_to) {
            let engine = choose|engine: Seq<char>| #[trigger]
                has_result(runs, model, engine, compare_to);
            let (i, j) = choose|i: int, j: int|
                #![trigger runs[i].results@[j]]
                0 <= i < runs.len() && 0 <= j < runs[i].results@.len()
                    && runs[i].dataset_metadata.model@ == model
                    && runs[i].results@[j].tokenizer_name@ == engine;
            if i < less.len() {
                assert(less[i].results@[j].tokenizer_name@ == engine);
                assert(has_result(less, model, engine, compare_to));
                let k = choose|k: int| 0 <= k < was.len() && was[k] == model;
                if names.len() > 0 {
                    assert(was.push(here)[k] == model);
                }
            } else {
                assert(run.results@[j].tokenizer_name@ == engine);
                lemma_names_in(run.results@, compare_to, engine);
                assert(names.contains(engine));
                assert(was.push(here)[was.len() as int] == model);
            }
        }
    }
}

/// Whether pairs of model and engine stand in rising order, none twice: by the
/// model, and of one model by the engine.
pub open spec fn keys_rise(keys: Seq<(Seq<char>, Seq<char>)>) -> bool {
    forall|i: int, j: int|
        0 <= i < j < keys.len() ==> {
            let a = #[trigger] keys[i];
            let b = #[trigger] keys[j];
            (a.0 != b.0 && text_at_most(a.0, b.0)) || (a.0 == b.0 && a.1 != b.1 && text_at_most(
                a.1,
                b.1,
            ))
        }
}

proof fn lemma_row_keys(
    runs: Seq<Run>,
    models: Seq<Seq<char>>,
    compare_to: Option<Seq<char>>,
)
    requires
        forall|i: int, j: int|
            0 <= i < j < models.len() ==> text_at_most(
                #[trigger] models[i],
                #[trigger] models[j],
            ) && models[i] != models[j],
    ensures
        keys_rise(row_keys(runs, models, compare_to)),
        forall|m: Seq<char>, e: Seq<char>| #[trigger]
            row_keys(runs, models, compare_to).contains((m, e)) <==> models.contains(m)
                && has_result(runs, m, e, compare_to),
    decreases models.len(),
{
    let keys = row_keys(runs, models, compare_to);
    if models.len() > 0 {
        let less = models.drop_last();
        let last = models.last();
        lemma_row_keys(runs, less, compare_to);
        let was = row_keys(runs, less, compare_to);
        let names = names_of(runs, Some(last), compare_to);
        let engines = engines_of(runs, last, compare_to);
        lemma_some_sorted_set(names);
        let more = engines.map_values(|e: Seq<char>| (last, e));
        assert(keys == was + more);
        assert forall|i: int| 0 <= i < was.len() implies less.contains((#[trigger] was[i]).0) by {
            let (m, e) = was[i];
            assert(was.contains((m, e)));
        }
        assert forall|i: int, j: int| 0 <= i < j < keys.len() implies {
            let a = #[trigger] keys[i];
            let b = #[trigger] keys[j];
            (a.0 != b.0 && text_at_most(a.0, b.0)) || (a.0 == b.0 && a.1 != b.1 && text_at_most(
                a.1,
                b.1,
            ))
        } by {
            if j < was.len() {
                assert(keys[i] == was[i] && keys[j] == was[j]);
            } else if i < was.len() {
                assert(keys[i] == was[i]);
                assert(less.contains(was[i].0));
                let k = choose|k: int| 0 <= k < less.len() && less[k] == was[i].0;
                assert(models[k] == was[i].0);
                assert(text_at_most(models[k], models[models.len() - 1]) && models[k]
                    != models[models.len() - 1]);
            } else {
                let a = i - was.len();
                let b = j - was.len();
                assert(text_at_most(engines[a], engines[b]) && engines[a] != engines[b]);
            }
        }
        assert forall|m: Seq<char>, e: Seq<char>| #[trigger]
            keys.contains((m, e)) <==> models.contains(m) && has_result(
                runs,
                m,
                e,
                compare_to,
            ) by {
            lemma_names_of(runs, last, compare_to, e);
            assert(engines.contains(e) <==> names.contains(e));
            if keys.contains((m, e)) {
                let k = choose|k: int| 0 <= k < keys.len() && keys[k] == (m, e);
                if k < was.len() {
                    assert(was[k] == (m, e));
                    assert(was.contains((m, e)));
                    let q = choose|q: int| 0 <= q < less.len() && less[q] == m;
                    assert(models[q] == m);
                } else {
                    assert(engines[k - was.len()] == e);
                    assert(engines.contains(e));
                    assert(models[models.len() - 1] == m);
                }
            }
            if models.contains(m) && has_result(runs, m, e, compare_to) {
                let q = choose|q: int| 0 <= q < models.len() && models[q] == m;
                if q < less.len() {
                    assert(less[q] == m);
                    assert(was.contains((m, e)));
                    let k = choose|k: int| 0 <= k < was.len() && was[k] == (m, e);
                    assert(keys[k] == (m, e));
                } else {
                    let k = choose|k: int| 0 <= k < engines.len() && engines[k] == e;
                    assert(keys[was.len() + k] == (m, e));
                }
            }
        }
    }
}

/// Whether a row is labelled with a model, and an engine where engines are told
/// apart, and goes on with what the results of that engine in the cells of that
/// model come to, out of as many as the model has cells.
pub open spec fn says_row(
    runs: Seq<Run>,
    model: Seq<char>,
    engine: Seq<char>,
    measurement: MeasureCommand,
    compare_to: Option<Seq<char>>,
    show_engine: bool,
    row: Seq<Shown>,
) -> bool {
    exists|m: String, e: String, cells: Seq<Shown>|
        {
            &&& m@ == model
            &&& e@ == engine
            &&& #[trigger] are_collapsed_cells(
                entries_of(runs, model, engine, compare_to),
                measurement,
                compare_to is Some,
                cells_of(runs, model) as usize,
                cells,
            )
            &&& row == #[trigger] label_cells(m, e, show_engine) + cells
        }
}

/// The table over several corpora has one row for every model and engine with a
/// result, but for the engine compared with: in order of the model and then of the
/// engine, none twice. A row starts with the model, and with the engine where
/// there is more than one, and goes on with what the results of that engine in the
/// cells of that model come to, out of as many as the model has cells.
pub proof fn law_table_of_several_corpora(
    runs: &Vec<Run>,
    measurement: MeasureCommand,
    compare_to: Option<&str>,
    sheet: Sheet,
    a: int,
    b: int,
)
    requires
        call_ensures(measurement_table, (runs, measurement, compare_to), sheet),
        0 <= a < runs@.len(),
        0 <= b < runs@.len(),
        runs@[a].dataset_metadata.corpus@ != runs@[b].dataset_metadata.corpus@,
    ensures
        exists|keys: Seq<(Seq<char>, Seq<char>)>|
            {
                &&& #[trigger] keys_rise(keys)
                &&& keys.len() == sheet.rows@.len()
                &&& forall|m: Seq<char>, e: Seq<char>| #[trigger]
                    keys.contains((m, e)) <==> has_result(runs@, m, e, name_of(compare_to))
                &&& forall|i: int|
                    0 <= i < keys.len() ==> says_row(
                        runs@,
                        (#[trigger] keys[i]).0,
                        keys[i].1,
                        measurement,
                        name_of(compare_to),
                        sheet.pivot,
                        shown(sheet.rows@[i]@),
                    )
            },
        sheet.labels == 1,
        sheet.align_last,
{
    let other = name_of(compare_to);
    let corpora = corpora_of(runs@);
    assert(corpora[a] != corpora[b]);
    assert(has_two(corpora));
    let list = models_of(runs@, other);
    lemma_some_sorted_set(list);
    let models = the_sorted_set(list);
    let keys = row_keys(runs@, models, other);
    lemma_row_keys(runs@, models, other);
    assert forall|m: Seq<char>, e: Seq<char>| #[trigger]
        keys.contains((m, e)) <==> has_result(runs@, m, e, other) by {
        if has_result(runs@, m, e, other) {
            lemma_models_of(runs@, other, m);
            assert(models.contains(m));
        }
    }
    assert(shown_rows(sheet.rows@).len() == sheet.rows@.len());
    assert forall|i: int| 0 <= i < keys.len() implies says_row(
        runs@,
        (#[trigger] keys[i]).0,
        keys[i].1,
        measurement,
        other,
        sheet.pivot,
        shown(sheet.rows@[i]@),
    ) by {
        assert(shown_rows(sheet.rows@)[i] == shown(sheet.rows@[i]@));
        assert(is_collapsed_row(
            runs@,
            keys[i].0,
            keys[i].1,
            measurement,
            sheet.pivot,
            other,
            shown_rows(sheet.rows@)[i],
        ));
    }
}

/// Every row of a table has as many cells as the table has headers.
pub proof fn law_rows_are_as_wide_as_the_headers(
    runs: &Vec<Run>,
    measurement: MeasureCommand,
    compare_to: Option<&str>,
    sheet: Sheet,
    i: int,
)
    requires
        call_ensures(measurement_table, (runs, measurement, compare_to), sheet),
        0 <= i < sheet.rows@.len(),
    ensures
        sheet.rows@[i]@.len() == sheet.headers@.len(),
{
    let other = name_of(compare_to);
    assert(contents(sheet.headers@).len() == sheet.headers@.len());
    assert(shown_rows(sheet.rows@)[i] == shown(sheet.rows@[i]@));
    assert(shown(sheet.rows@[i]@).len() == sheet.rows@[i]@.len());
    if has_two(corpora_of(runs@)) {
        let keys = row_keys(runs@, the_sorted_set(models_of(runs@, other)), other);
        let k = keys[i];
        assert(is_collapsed_row(
            runs@,
            keys[i].0,
            keys[i].1,
            measurement,
            sheet.pivot,
            other,
            shown_rows(sheet.rows@)[i],
        ));
    } else {
        lemma_single_width(runs@, measurement, sheet.pivot, other, i);
    }
}

proof fn lemma_cell_width(
    run: Run,
    n: nat,
    measurement: MeasureCommand,
    show_engine: bool,
    compare_to: Option<Seq<char>>,
    i: int,
)
    requires
        0 <= i < cell_rows(run, n, measurement, show_engine, compare_to).len(),
    ensures
        cell_rows(run, n, measurement, show_engine, compare_to)[i].len() == single_headers(
            measurement,
            show_engine,
            compare_to,
        ).len(),
    decreases n,
{
    let so_far = cell_rows(run, (n - 1) as nat, measurement, show_engine, compare_to);
    if i < so_far.len() {
        lemma_cell_width(run, (n - 1) as nat, measurement, show_engine, compare_to, i);
    }
}

proof fn lemma_single_width(
    runs: Seq<Run>,
    measurement: MeasureCommand,
    show_engine: bool,
    compare_to: Option<Seq<char>>,
    i: int,
)
    requires
        0 <= i < single_rows(runs, measurement, show_engine, compare_to).len(),
    ensures
        single_rows(runs, measurement, show_engine, compare_to)[i].len() == single_headers(
            measurement,
            show_engine,
            compare_to,
        ).len(),
    decreases runs.len(),
{
    let was = single_rows(runs.drop_last(), measurement, show_engine, compare_to);
    let run = runs.last();
    if i < was.len() {
        lemma_single_width(runs.drop_last(), measurement, show_engine, compare_to, i);
    } else {
        lemma_cell_width(
            run,
            run.results@.len(),
            measurement,
            show_engine,
            compare_to,
            i - was.len(),
        );
    }
}

/// Engines become columns exactly where some two results, besides those of the
/// engine compared with, are of different engines.
pub proof fn law_engines_become_columns(
    runs: &Vec<Run>,
    measurement: MeasureCommand,
    compare_to: Option<&str>,
    sheet: Sheet,
)
    requires
        call_ensures(measurement_table, (runs, measurement, compare_to), sheet),
    ensures
        sheet.pivot <==> exists|i: int, j: int, k: int, l: int|
            #![trigger runs@[i].results@[j], runs@[k].results@[l]]
            {
                &&& 0 <= i < runs@.len() && 0 <= j < runs@[i].results@.len()
                &&& 0 <= k < runs@.len() && 0 <= l < runs@[k].results@.len()
                &&& name_of(compare_to) != Some(runs@[i].results@[j].tokenizer_name@)
                &&& name_of(compare_to) != Some(runs@[k].results@[l].tokenizer_name@)
                &&& runs@[i].results@[j].tokenizer_name@ != runs@[k].results@[l].tokenizer_name@
            },
{
    let other = name_of(compare_to);
    let names = names_of(runs@, None, other);
    if has_two(names) {
        let (p, q) = choose|p: int, q: int|
            0 <= p < names.len() && 0 <= q < names.len() && #[trigger] names[p]
                != #[trigger] names[q];
        assert(names.contains(names[p]) && names.contains(names[q]));
        lemma_any_name(runs@, other, names[p]);
        lemma_any_name(runs@, other, names[q]);
        let (i, j) = choose|i: int, j: int|
            #![trigger runs@[i].results@[j]]
            0 <= i < runs@.len() && 0 <= j < runs@[i].results@.len()
                && runs@[i].results@[j].tokenizer_name@ == names[p];
        let (k, l) = choose|k: int, l: int|
            #![trigger runs@[k].results@[l]]
            0 <= k < runs@.len() && 0 <= l < runs@[k].results@.len()
                && runs@[k].results@[l].tokenizer_name@ == names[q];
        assert(runs@[i].results@[j].tokenizer_name@ != runs@[k].results@[l].tokenizer_name@);
    }
    assert forall|i: int, j: int, k: int, l: int|
        #![trigger runs@[i].results@[j], runs@[k].results@[l]]
        ({
            &&& 0 <= i < runs@.len() && 0 <= j < runs@[i].results@.len()
            &&& 0 <= k < runs@.len() && 0 <= l < runs@[k].results@.len()
            &&& other != Some(runs@[i].results@[j].tokenizer_name@)
            &&& other != Some(runs@[k].results@[l].tokenizer_name@)
            &&& runs@[i].results@[j].tokenizer_name@ != runs@[k].results@[l].tokenizer_name@
        }) implies has_two(names) by {
        lemma_any_name(runs@, other, runs@[i].results@[j].tokenizer_name@);
        lemma_any_name(runs@, other, runs@[k].results@[l].tokenizer_name@);
        let x = runs@[i].results@[j].tokenizer_name@;
        let y = runs@[k].results@[l].tokenizer_name@;
        let p = choose|p: int| 0 <= p < names.len() && names[p] == x;
        let q = choose|q: int| 0 <= q < names.len() && names[q] == y;
        assert(names[p] != names[q]);
    }
}

proof fn lemma_any_name(runs: Seq<Run>, compare_to: Option<Seq<char>>, x: Seq<char>)
    ensures
        names_of(runs, None, compare_to).contains(x) <==> compare_to != Some(x) && exists|
            i: int,
            j: int,
        |
            #![trigger runs[i].results@[j]]
            0 <= i < runs.len() && 0 <= j < runs[i].results@.len()
                && runs[i].results@[j].tokenizer_name@ == x,
    decreases runs.len(),
{
    if runs.len() > 0 {
        let less = runs.drop_last();
        let run = runs.last();
        let last = runs.len() - 1;
        lemma_any_name(less, compare_to, x);
        lemma_names_in(run.results@, compare_to, x);
        let was = names_of(less, None, compare_to);
        let more = names_in(run.results@, compare_to);
        let all = was + more;
        if was.contains(x) {
            let k = choose|k: int| 0 <= k < was.len() && was[k] == x;
            assert(all[k] == x);
            let (i, j) = choose|i: int, j: int|
                #![trigger less[i].results@[j]]
                0 <= i < less.len() && 0 <= j < less[i].results@.len()
                    && less[i].results@[j].tokenizer_name@ == x;
            assert(runs[i].results@[j].tokenizer_name@ == x);
        }
        if more.contains(x) {
            let k = choose|k: int| 0 <= k < more.len() && more[k] == x;
            assert(all[was.len() + k] == x);
            let j = choose|j: int|
                0 <= j < run.results@.len() && (#[trigger] run.results@[j]).tokenizer_name@ == x;
            assert(runs[last].results@[j].tokenizer_name@ == x);
        }
        if all.contains(x) {
            let k = choose|k: int| 0 <= k < all.len() && all[k] == x;
            if k < was.len() {
                assert(was[k] == x);
            } else {
                assert(more[k - was.len()] == x);
            }
        }
        if compare_to != Some(x) && exists|i: int, j: int|
            #![trigger runs[i].results@[j]]
            0 <= i < runs.len() && 0 <= j < runs[i].results@.len()
                && runs[i].results@[j].tokenizer_name@ == x {
            let (i, j) = choose|i: int, j: int|
                #![trigger runs[i].results@[j]]
                0 <= i < runs.len() && 0 <= j < runs[i].results@.len()
                    && runs[i].results@[j].tokenizer_name@ == x;
            if i < less.len() {
                assert(less[i].results@[j].tokenizer_name@ == x);
                assert(was.contains(x));
            } else {
                assert(run.results@[j].tokenizer_name@ == x);
                assert(more.contains(x));
            }
        }
    }
}

/// Whether headers read so from a place on.
pub open spec fn reads(h: Seq<String>, at: int, list: Seq<Seq<char>>, n: int) -> bool {
    &&& list.len() == n && at + n <= h.len()
    &&& forall|i: int| 0 <= i < n ==> (#[trigger] h[at + i])@ == list[i]
}

proof fn lemma_padding_headers(front: Seq<char>)
    ensures
        padded(front, "off"@) == front + " [pad off]"@,
        padded(front, "longest"@) == front + " [pad longest]"@,
{
    reveal_strlit(" [pad ");
    reveal_strlit("off");
    reveal_strlit("longest");
    reveal_strlit("]");
    reveal_strlit(" [pad off]");
    reveal_strlit(" [pad longest]");
    assert(padded(front, "off"@) =~= front + " [pad off]"@);
    assert(padded(front, "longest"@) =~= front + " [pad longest]"@);
}

proof fn lemma_scaling_headers()
    ensures
        padded("1T MB/s"@, "off"@) == "1T MB/s [pad off]"@,
        padded("1T MB/s"@, "longest"@) == "1T MB/s [pad longest]"@,
        padded("median 1T MB/s"@, "off"@) == "median 1T MB/s [pad off]"@,
        padded("median 1T MB/s"@, "longest"@) == "median 1T MB/s [pad longest]"@,
        padded("max MB/s"@, "off"@) == "max MB/s [pad off]"@,
        padded("max MB/s"@, "longest"@) == "max MB/s [pad longest]"@,
        padded("median max MB/s"@, "off"@) == "median max MB/s [pad off]"@,
        padded("median max MB/s"@, "longest"@) == "median max MB/s [pad longest]"@,
        padded("scaling"@, "off"@) == "scaling [pad off]"@,
        padded("scaling"@, "longest"@) == "scaling [pad longest]"@,
        padded("median scaling"@, "off"@) == "median scaling [pad off]"@,
        padded("median scaling"@, "longest"@) == "median scaling [pad longest]"@,
{
    reveal_strlit(" [pad off]");
    reveal_strlit(" [pad longest]");
    reveal_strlit("1T MB/s");
    lemma_padding_headers("1T MB/s"@);
    reveal_strlit("1T MB/s [pad off]");
    assert(padded("1T MB/s"@, "off"@) =~= "1T MB/s [pad off]"@);
    reveal_strlit("1T MB/s [pad longest]");
    assert(padded("1T MB/s"@, "longest"@) =~= "1T MB/s [pad longest]"@);
    reveal_strlit("median 1T MB/s");
    lemma_padding_headers("median 1T MB/s"@);
    reveal_strlit("median 1T MB/s [pad off]");
    assert(padded("median 1T MB/s"@, "off"@) =~= "median 1T MB/s [pad off]"@);
    reveal_strlit("median 1T MB/s [pad longest]");
    assert(padded("median 1T MB/s"@, "longest"@) =~= "median 1T MB/s [pad longest]"@);
    reveal_strlit("max MB/s");
    lemma_padding_headers("max MB/s"@);
    reveal_strlit("max MB/s [pad off]");
    assert(padded("max MB/s"@, "off"@) =~= "max MB/s [pad off]"@);
    reveal_strlit("max MB/s [pad longest]");
    assert(padded("max MB/s"@, "longest"@) =~= "max MB/s [pad longest]"@);
    reveal_strlit("median max MB/s");
    lemma_padding_headers("median max MB/s"@);
    reveal_strlit("median max MB/s [pad off]");
    assert(padded("median max MB/s"@, "off"@) =~= "median max MB/s [pad off]"@);
    reveal_strlit("median max MB/s [pad longest]");
    assert(padded("median max MB/s"@, "longest"@) =~= "median max MB/s [pad longest]"@);
    reveal_strlit("scaling");
    lemma_padding_headers("scaling"@);
    reveal_strlit("scaling [pad off]");
    assert(padded("scaling"@, "off"@) =~= "scaling [pad off]"@);
    reveal_strlit("scaling [pad longest]");
    assert(padded("scaling"@, "longest"@) =~= "scaling [pad longest]"@);
    reveal_strlit("median scaling");
    lemma_padding_headers("median scaling"@);
    reveal_strlit("median scaling [pad off]");
    assert(padded("median scaling"@, "off"@) =~= "median scaling [pad off]"@);
    reveal_strlit("median scaling [pad longest]");
    assert(padded("median scaling"@, "longest"@) =~= "median scaling [pad longest]"@);
}

proof fn lemma_reads(h: Seq<String>, a: Seq<Seq<char>>, b: Seq<Seq<char>>, c: Seq<Seq<char>>)
    requires
        contents(h) == a + b + c,
    ensures
        h.len() == a.len() + b.len() + c.len(),
        reads(h, 0, a, a.len() as int),
        reads(h, a.len() as int, b, b.len() as int),
        reads(h, (a.len() + b.len()) as int, c, c.len() as int),
{
    let all = contents(h);
    assert(all.len() == h.len());
    assert forall|i: int| 0 <= i < h.len() implies (#[trigger] h[i])@ == (a + b + c)[i] by {
        assert(all[i] == h[i]@);
    }
}

/// The headers over one corpus: the model and, where engines become columns, the engine; the
/// values that are measured, each with its unit; and what they are compared with, or the
/// status where they are compared with nothing.
pub proof fn law_headers_of_one_corpus(
    runs: &Vec<Run>,
    measurement: MeasureCommand,
    compare_to: Option<&str>,
    sheet: Sheet,
    at: int,
)
    requires
        call_ensures(measurement_table, (runs, measurement, compare_to), sheet),
        forall|i: int, j: int|
            0 <= i < runs@.len() && 0 <= j < runs@.len() ==> (
            #[trigger] runs@[i]).dataset_metadata.corpus@ == (
            #[trigger] runs@[j]).dataset_metadata.corpus@,
        at == if sheet.pivot {
            2int
        } else {
            1
        },
    ensures
        ({
            let h = sheet.headers@;
            let values = match measurement {
                MeasureCommand::Encode => 3int,
                MeasureCommand::Decode => 2int,
                MeasureCommand::Latency => 3int,
                MeasureCommand::Scaling => 6int,
                MeasureCommand::Memory => 4int,
            };
            &&& h.len() >= at && h[0]@ == "model"@
            &&& sheet.pivot ==> h[1]@ == "engine"@
            &&& measurement is Encode ==> reads(h, at, seq!["MB/s"@, "ns/B"@, "tokens"@], 3)
            &&& measurement is Decode ==> reads(h, at, seq!["MB/s"@, "ns/token"@], 2)
            &&& measurement is Latency ==> reads(h, at, seq!["p50 us"@, "p99 us"@, "samples"@], 3)
            &&& measurement is Scaling ==> reads(h, at, seq![
                "1T MB/s [pad off]"@,
                "max MB/s [pad off]"@,
                "scaling [pad off]"@,
                "1T MB/s [pad longest]"@,
                "max MB/s [pad longest]"@,
                "scaling [pad longest]"@,
            ], 6)
            &&& measurement is Memory ==> reads(h, at, seq!["loaded MB"@, "working MB"@, "workers"@, "parallelism"@], 4)
            &&& compare_to is None ==> reads(h, at + values, seq!["status"@], 1) && h.len() == at + values
                + 1
            &&& compare_to is Some ==> {
                let other = compare_to->0@;
                let end = at + values;
                &&& measurement is Encode || measurement is Decode ==> reads(
                    h,
                    end,
                    seq!["vs "@ + other],
                    1,
                ) && h.len() == end + 1
                &&& measurement is Latency ==> reads(
                    h,
                    end,
                    seq!["p50 vs "@ + other, "p99 vs "@ + other],
                    2,
                ) && h.len() == end + 2
                &&& measurement is Memory ==> reads(
                    h,
                    end,
                    seq!["loaded heap vs "@ + other, "working heap vs "@ + other],
                    2,
                ) && h.len() == end + 2
                &&& measurement is Scaling ==> reads(
                    h,
                    end,
                    seq![
                        "1T vs "@ + other + " [pad off]"@,
                        "max vs "@ + other + " [pad off]"@,
                        "1T vs "@ + other + " [pad longest]"@,
                        "max vs "@ + other + " [pad longest]"@,
                    ],
                    4,
                ) && h.len() == end + 4
            }
        }),
{
    let other = name_of(compare_to);
    if has_two(corpora_of(runs@)) {
        let (i, j) = choose|i: int, j: int|
            0 <= i < corpora_of(runs@).len() && 0 <= j < corpora_of(runs@).len()
                && #[trigger] corpora_of(runs@)[i] != #[trigger] corpora_of(runs@)[j];
        assert(runs@[i].dataset_metadata.corpus@ == runs@[j].dataset_metadata.corpus@);
    }
    let back = match other {
        Some(o) => comparison_headers(measurement, o),
        None => seq!["status"@],
    };
    lemma_scaling_headers();
    if let Some(o) = other {
        lemma_padding_headers("1T vs "@ + o);
        lemma_padding_headers("max vs "@ + o);
    }
    let h = sheet.headers@;
    let front = label_headers(sheet.pivot);
    lemma_reads(h, front, value_headers(measurement), back);
    assert(h[0int + 0]@ == front[0]);
    if sheet.pivot {
        assert(h[0int + 1]@ == front[1]);
    }
}

/// The headers over several corpora: the same labels, the corpora, the medians, and what they
/// are compared with, if they are.
pub proof fn law_headers_of_several_corpora(
    runs: &Vec<Run>,
    measurement: MeasureCommand,
    compare_to: Option<&str>,
    sheet: Sheet,
    a: int,
    b: int,
    at: int,
)
    requires
        call_ensures(measurement_table, (runs, measurement, compare_to), sheet),
        0 <= a < runs@.len(),
        0 <= b < runs@.len(),
        runs@[a].dataset_metadata.corpus@ != runs@[b].dataset_metadata.corpus@,
        at == if sheet.pivot {
            3int
        } else {
            2
        },
    ensures
        ({
            let h = sheet.headers@;
            let values = match measurement {
                MeasureCommand::Encode => 2int,
                MeasureCommand::Decode => 2int,
                MeasureCommand::Latency => 3int,
                MeasureCommand::Scaling => 6int,
                MeasureCommand::Memory => 3int,
            };
            &&& h.len() >= at && h[0]@ == "model"@
            &&& sheet.pivot ==> h[1]@ == "engine"@
            &&& h[at - 1]@ == "corpora"@
            &&& measurement is Encode ==> reads(h, at, seq!["median MB/s"@, "median ns/B"@], 2)
            &&& measurement is Decode ==> reads(h, at, seq!["median MB/s"@, "median ns/token"@], 2)
            &&& measurement is Latency ==> reads(h, at, seq!["median p50 us"@, "median p99 us"@, "samples"@], 3)
            &&& measurement is Scaling ==> reads(h, at, seq![
                "median 1T MB/s [pad off]"@,
                "median max MB/s [pad off]"@,
                "median scaling [pad off]"@,
                "median 1T MB/s [pad longest]"@,
                "median max MB/s [pad longest]"@,
                "median scaling [pad longest]"@,
            ], 6)
            &&& measurement is Memory ==> reads(h, at, seq!["median loaded MB"@, "median working MB"@, "workers"@], 3)
            &&& compare_to is None ==> h.len() == at + values
            &&& compare_to is Some ==> {
                let other = compare_to->0@;
                let end = at + values;
                &&& measurement is Encode || measurement is Decode ==> reads(
                    h,
                    end,
                    seq!["vs "@ + other],
                    1,
                ) && h.len() == end + 1
                &&& measurement is Latency ==> reads(
                    h,
                    end,
                    seq!["p50 vs "@ + other, "p99 vs "@ + other],
                    2,
                ) && h.len() == end + 2
                &&& measurement is Memory ==> reads(
                    h,
                    end,
                    seq!["loaded heap vs "@ + other, "working heap vs "@ + other],
                    2,
                ) && h.len() == end + 2
                &&& measurement is Scaling ==> reads(
                    h,
                    end,
                    seq![
                        "1T vs "@ + other + " [pad off]"@,
                        "max vs "@ + other + " [pad off]"@,
                        "1T vs "@ + other + " [pad longest]"@,
                        "max vs "@ + other + " [pad longest]"@,
                    ],
                    4,
                ) && h.len() == end + 4
            }
        }),
{
    let other = name_of(compare_to);
    let corpora = corpora_of(runs@);
    assert(corpora[a] != corpora[b]);
    assert(has_two(corpora));
    let back = match other {
        Some(o) => comparison_headers(measurement, o),
        None => Seq::empty(),
    };
    lemma_scaling_headers();
    if let Some(o) = other {
        lemma_padding_headers("1T vs "@ + o);
        lemma_padding_headers("max vs "@ + o);
    }
    let h = sheet.headers@;
    let front = label_headers(sheet.pivot) + seq!["corpora"@];
    lemma_reads(h, front, median_headers(measurement), back);
    assert(h[0int + 0]@ == front[0]);
    assert(h[0 + (at - 1)]@ == front[at - 1]);
    if sheet.pivot {
        assert(h[0int + 1]@ == front[1]);
    }
}

}
