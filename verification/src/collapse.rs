//! The table over several corpora: one row per model and engine, with medians
//! over the corpora.

use crate::cli::MeasureCommand;
use crate::engine::Padding;
use crate::number::Real;
use crate::order::Ranked;
use crate::report::{text_of, EngineResult};
use crate::stats::{is_median, lemma_some_median, lemma_the_median, median, the_median};
use crate::table::{behind, first_point, mbps_of, median_cell, points_of, same_option, scaling_first,
    scaling_last, shown, widest_point, Cell, Shown};
use crate::text::same;
use vstd::prelude::*;

verus! {

/// A result and the other engine's result of the same cell.
pub type Compared<'a> = (&'a EngineResult, Option<&'a EngineResult>);

/// The same as values of the contracts.
pub open spec fn plain(entries: Seq<Compared<'_>>) -> Seq<(EngineResult, Option<EngineResult>)> {
    entries.map_values(|e: Compared<'_>| (*e.0, behind(e.1)))
}

// ---------------------------------------------------------------------------
// Figures
// ---------------------------------------------------------------------------

/// A number that a result may hold.
#[derive(Clone, Copy)]
pub enum Figure {
    Mbps,
    NsPerByte,
    DecodeMbps,
    DecodeNs,
    P50,
    P99,
    First(Padding),
    Widest(Padding),
    Efficiency(Padding),
    HeapLoad,
    HeapEncode,
}

/// Whether a result counts as measured.
pub open spec fn complete(r: EngineResult, measurement: MeasureCommand) -> bool {
    match measurement {
        MeasureCommand::Encode => r.unsupported is None,
        MeasureCommand::Decode => r.decode_mbps is Some,
        MeasureCommand::Latency => r.latency_p50_us is Some,
        MeasureCommand::Scaling => points_of(r).len() > 0,
        MeasureCommand::Memory => r.heap_encode_mb is Some,
    }
}

fn is_complete(r: &EngineResult, measurement: MeasureCommand) -> (b: bool)
    ensures
        b == complete(*r, measurement),
{
    match measurement {
        MeasureCommand::Encode => r.unsupported.is_none(),
        MeasureCommand::Decode => r.decode_mbps.is_some(),
        MeasureCommand::Latency => r.latency_p50_us.is_some(),
        MeasureCommand::Scaling => match &r.scaling {
            Some(points) => points.len() > 0,
            None => false,
        },
        MeasureCommand::Memory => r.heap_encode_mb.is_some(),
    }
}

/// The figure of a result. An efficiency of zero marks a curve without a
/// one-thread point, and is none.
pub open spec fn figure_of(r: EngineResult, figure: Figure) -> Option<Real> {
    match figure {
        Figure::Mbps => if r.unsupported is None {
            Some(r.mbps)
        } else {
            None
        },
        Figure::NsPerByte => if r.unsupported is None {
            Some(r.ns_per_byte)
        } else {
            None
        },
        Figure::DecodeMbps => r.decode_mbps,
        Figure::DecodeNs => if r.decode_mbps is Some {
            r.decode_ns_per_token
        } else {
            None
        },
        Figure::P50 => r.latency_p50_us,
        Figure::P99 => if r.latency_p50_us is Some {
            r.latency_p99_us
        } else {
            None
        },
        Figure::First(p) => mbps_of(first_point(points_of(r), p.label())),
        Figure::Widest(p) => mbps_of(widest_point(points_of(r), p.label())),
        Figure::Efficiency(p) => match widest_point(points_of(r), p.label()) {
            Some(point) => if point.efficiency_pct.is_positive() {
                Some(point.efficiency_pct)
            } else {
                None
            },
            None => None,
        },
        Figure::HeapLoad => if r.heap_encode_mb is Some {
            r.heap_load_mb
        } else {
            None
        },
        Figure::HeapEncode => r.heap_encode_mb,
    }
}

fn read_figure(r: &EngineResult, figure: Figure) -> (v: Option<Real>)
    ensures
        v == figure_of(*r, figure),
{
    match figure {
        Figure::Mbps => if r.unsupported.is_none() {
            Some(r.mbps)
        } else {
            None
        },
        Figure::NsPerByte => if r.unsupported.is_none() {
            Some(r.ns_per_byte)
        } else {
            None
        },
        Figure::DecodeMbps => r.decode_mbps,
        Figure::DecodeNs => if r.decode_mbps.is_some() {
            r.decode_ns_per_token
        } else {
            None
        },
        Figure::P50 => r.latency_p50_us,
        Figure::P99 => if r.latency_p50_us.is_some() {
            r.latency_p99_us
        } else {
            None
        },
        Figure::First(p) => match scaling_first(r, p.as_str()) {
            Some(point) => Some(point.mbps),
            None => None,
        },
        Figure::Widest(p) => match scaling_last(r, p.as_str()) {
            Some(point) => Some(point.mbps),
            None => None,
        },
        Figure::Efficiency(p) => match scaling_last(r, p.as_str()) {
            Some(point) => if point.efficiency_pct.positive() {
                Some(point.efficiency_pct)
            } else {
                None
            },
            None => None,
        },
        Figure::HeapLoad => if r.heap_encode_mb.is_some() {
            r.heap_load_mb
        } else {
            None
        },
        Figure::HeapEncode => r.heap_encode_mb,
    }
}

/// The figures of the entries that have one.
pub open spec fn figures(
    entries: Seq<(EngineResult, Option<EngineResult>)>,
    figure: Figure,
) -> Seq<Real>
    decreases entries.len(),
{
    if entries.len() == 0 {
        Seq::empty()
    } else {
        match figure_of(entries.last().0, figure) {
            Some(v) => figures(entries.drop_last(), figure).push(v),
            None => figures(entries.drop_last(), figure),
        }
    }
}

fn collect(entries: &Vec<Compared<'_>>, figure: Figure) -> (values: Vec<Real>)
    ensures
        values@ == figures(plain(entries@), figure),
{
    let ghost all = plain(entries@);
    let mut values: Vec<Real> = Vec::new();
    let mut i: usize = 0;
    assert(all.take(0) =~= Seq::empty());
    while i < entries.len()
        invariant
            i <= entries@.len(),
            all == plain(entries@),
            values@ =~= figures(all.take(i as int), figure),
        decreases entries@.len() - i,
    {
        assert(all.take(i + 1).drop_last() =~= all.take(i as int));
        if let Some(v) = read_figure(entries[i].0, figure) {
            values.push(v);
        }
        i = i + 1;
    }
    assert(all.take(all.len() as int) =~= all);
    values
}

fn median_figure(entries: &Vec<Compared<'_>>, figure: Figure, decimals: usize) -> (c: Cell)
    ensures
        c == median_cell(figures(plain(entries@), figure), decimals),
        c@ == Shown::Plain(c),
{
    let values = collect(entries, figure);
    if values.len() == 0 {
        return Cell::Dash;
    }
    let m = median(values.as_slice());
    proof {
        lemma_the_median(values@, m);
    }
    Cell::MedianFixed(m, decimals)
}

/// How many entries count as measured.
pub open spec fn completed(
    entries: Seq<(EngineResult, Option<EngineResult>)>,
    measurement: MeasureCommand,
) -> nat
    decreases entries.len(),
{
    if entries.len() == 0 {
        0
    } else {
        completed(entries.drop_last(), measurement) + if complete(entries.last().0, measurement) {
            1nat
        } else {
            0
        }
    }
}

fn count_complete(entries: &Vec<Compared<'_>>, measurement: MeasureCommand) -> (n: usize)
    ensures
        n == completed(plain(entries@), measurement),
{
    let ghost all = plain(entries@);
    let mut n: usize = 0;
    let mut i: usize = 0;
    assert(all.take(0) =~= Seq::empty());
    while i < entries.len()
        invariant
            i <= entries@.len(),
            all == plain(entries@),
            n <= i,
            n == completed(all.take(i as int), measurement),
        decreases entries@.len() - i,
    {
        assert(all.take(i + 1).drop_last() =~= all.take(i as int));
        if is_complete(entries[i].0, measurement) {
            n = n + 1;
        }
        i = i + 1;
    }
    assert(all.take(all.len() as int) =~= all);
    n
}

// ---------------------------------------------------------------------------
// Comparisons
// ---------------------------------------------------------------------------

/// What two results are compared by.
#[derive(Clone, Copy)]
pub enum Comparison {
    Encode,
    Decode,
    P50,
    P99,
    First(Padding),
    Widest(Padding),
    HeapLoad,
    HeapEncode,
}

/// A pair of numbers, where the one divided by is above zero.
pub open spec fn over(numerator: Option<Real>, denominator: Option<Real>) -> Option<(Real, Real)> {
    if numerator is Some && denominator is Some && denominator->0.is_positive() {
        Some((numerator->0, denominator->0))
    } else {
        None
    }
}

fn divide(numerator: Option<Real>, denominator: Option<Real>) -> (r: Option<(Real, Real)>)
    ensures
        r == over(numerator, denominator),
{
    match (numerator, denominator) {
        (Some(n), Some(d)) => if d.positive() {
            Some((n, d))
        } else {
            None
        },
        _ => None,
    }
}

/// Whether a result was checked against the reference and did not agree with it:
/// in its ids or, for a decode comparison, in its text.
pub open spec fn is_wrong(r: EngineResult, by: Comparison) -> bool {
    r.verified == Some(false) || (by is Decode && r.decode_verified == Some(false))
}

fn disagrees(r: &EngineResult, by: Comparison) -> (wrong: bool)
    ensures
        wrong == is_wrong(*r, by),
{
    match (r.verified, by) {
        (Some(false), _) => true,
        (_, Comparison::Decode) => matches!(r.decode_verified, Some(false)),
        _ => false,
    }
}

/// The ratio of two results, where they can be compared: throughput and memory
/// over the other engine's, and the other engine's latency over this one's. Two
/// results that did different work are not compared, nor is one that was found
/// wrong.
pub open spec fn ratio_of(r: EngineResult, o: EngineResult, by: Comparison) -> Option<(
    Real,
    Real,
)> {
    if is_wrong(r, by) || is_wrong(o, by) {
        None
    } else {
        plain_ratio(r, o, by)
    }
}

/// The ratio of two results that were not found wrong.
pub open spec fn plain_ratio(r: EngineResult, o: EngineResult, by: Comparison) -> Option<(
    Real,
    Real,
)> {
    match by {
        Comparison::Encode => if r.unsupported is None && o.unsupported is None && r.ids_hash@
            == o.ids_hash@ {
            over(Some(r.mbps), Some(o.mbps))
        } else {
            None
        },
        Comparison::Decode => if text_of(r.decode_text_hash) == text_of(o.decode_text_hash) {
            over(r.decode_mbps, o.decode_mbps)
        } else {
            None
        },
        Comparison::P50 => over(o.latency_p50_us, r.latency_p50_us),
        Comparison::P99 => if r.latency_p50_us is Some {
            over(o.latency_p99_us, r.latency_p99_us)
        } else {
            None
        },
        Comparison::First(p) => if r.ids_hash@ == o.ids_hash@ {
            over(figure_of(r, Figure::First(p)), figure_of(o, Figure::First(p)))
        } else {
            None
        },
        Comparison::Widest(p) => if r.ids_hash@ == o.ids_hash@ {
            over(figure_of(r, Figure::Widest(p)), figure_of(o, Figure::Widest(p)))
        } else {
            None
        },
        Comparison::HeapLoad => if r.heap_encode_mb is Some {
            over(r.heap_load_mb, o.heap_load_mb)
        } else {
            None
        },
        Comparison::HeapEncode => over(r.heap_encode_mb, o.heap_encode_mb),
    }
}

fn read_ratio(r: &EngineResult, o: &EngineResult, by: Comparison) -> (v: Option<(Real, Real)>)
    ensures
        v == ratio_of(*r, *o, by),
{
    if disagrees(r, by) || disagrees(o, by) {
        return None;
    }
    match by {
        Comparison::Encode => if r.unsupported.is_none() && o.unsupported.is_none() && same(
            r.ids_hash.as_str(),
            o.ids_hash.as_str(),
        ) {
            divide(Some(r.mbps), Some(o.mbps))
        } else {
            None
        },
        Comparison::Decode => if same_option(&r.decode_text_hash, &o.decode_text_hash) {
            divide(r.decode_mbps, o.decode_mbps)
        } else {
            None
        },
        Comparison::P50 => divide(o.latency_p50_us, r.latency_p50_us),
        Comparison::P99 => if r.latency_p50_us.is_some() {
            divide(o.latency_p99_us, r.latency_p99_us)
        } else {
            None
        },
        Comparison::First(p) => if same(r.ids_hash.as_str(), o.ids_hash.as_str()) {
            divide(read_figure(r, Figure::First(p)), read_figure(o, Figure::First(p)))
        } else {
            None
        },
        Comparison::Widest(p) => if same(r.ids_hash.as_str(), o.ids_hash.as_str()) {
            divide(read_figure(r, Figure::Widest(p)), read_figure(o, Figure::Widest(p)))
        } else {
            None
        },
        Comparison::HeapLoad => if r.heap_encode_mb.is_some() {
            divide(r.heap_load_mb, o.heap_load_mb)
        } else {
            None
        },
        Comparison::HeapEncode => divide(r.heap_encode_mb, o.heap_encode_mb),
    }
}

/// The ratios of the entries that can be compared.
pub open spec fn ratios(
    entries: Seq<(EngineResult, Option<EngineResult>)>,
    by: Comparison,
) -> Seq<(Real, Real)>
    decreases entries.len(),
{
    if entries.len() == 0 {
        Seq::empty()
    } else {
        let so_far = ratios(entries.drop_last(), by);
        match entries.last().1 {
            Some(o) => match ratio_of(entries.last().0, o, by) {
                Some(pair) => so_far.push(pair),
                None => so_far,
            },
            None => so_far,
        }
    }
}

/// Whether a comparison is one of encode throughput, at one thread or many.
pub open spec fn is_throughput(by: Comparison) -> bool {
    by is Encode || by is First || by is Widest
}

/// A list of pairs that all produced other ids than their comparator gives no
/// throughput ratio, however fast they are.
pub proof fn law_mismatch_is_never_ranked(
    entries: Seq<(EngineResult, Option<EngineResult>)>,
    by: Comparison,
)
    requires
        is_throughput(by),
        forall|i: int|
            0 <= i < entries.len() ==> ((#[trigger] entries[i]).1 is Some ==> entries[i].0.ids_hash@
                != entries[i].1->0.ids_hash@),
    ensures
        ratios(entries, by).len() == 0,
    decreases entries.len(),
{
    if entries.len() > 0 {
        assert forall|i: int| 0 <= i < entries.drop_last().len() implies ((
        #[trigger] entries.drop_last()[i]).1 is Some ==> entries.drop_last()[i].0.ids_hash@
            != entries.drop_last()[i].1->0.ids_hash@) by {
            assert(entries.drop_last()[i] == entries[i]);
        }
        law_mismatch_is_never_ranked(entries.drop_last(), by);
        assert(entries.last() == entries[entries.len() - 1]);
    }
}

/// A list of pairs in each of which one result was found wrong gives no ratio of
/// any kind: two engines that are wrong alike enter no median.
pub proof fn law_wrong_is_never_ranked(
    entries: Seq<(EngineResult, Option<EngineResult>)>,
    by: Comparison,
)
    requires
        forall|i: int|
            0 <= i < entries.len() ==> ((#[trigger] entries[i]).1 is Some ==> is_wrong(
                entries[i].0,
                by,
            ) || is_wrong(entries[i].1->0, by)),
    ensures
        ratios(entries, by).len() == 0,
    decreases entries.len(),
{
    if entries.len() > 0 {
        let less = entries.drop_last();
        assert forall|i: int| 0 <= i < less.len() implies ((#[trigger] less[i]).1 is Some
            ==> is_wrong(less[i].0, by) || is_wrong(less[i].1->0, by)) by {
            assert(less[i] == entries[i]);
        }
        law_wrong_is_never_ranked(less, by);
        assert(entries.last() == entries[entries.len() - 1]);
    }
}

fn ratios_cell(entries: &Vec<Compared<'_>>, by: Comparison, expected: usize) -> (c: Cell)
    ensures
        c@ == Shown::Ratios(ratios(plain(entries@), by), expected),
{
    let ghost all = plain(entries@);
    let mut pairs: Vec<(Real, Real)> = Vec::new();
    let mut i: usize = 0;
    assert(all.take(0) =~= Seq::empty());
    while i < entries.len()
        invariant
            i <= entries@.len(),
            all == plain(entries@),
            pairs@ =~= ratios(all.take(i as int), by),
        decreases entries@.len() - i,
    {
        assert(all.take(i + 1).drop_last() =~= all.take(i as int));
        assert(all.take(i + 1).last() == (*entries@[i as int].0, behind(entries@[i as int].1)));
        if let Some(o) = entries[i].1 {
            if let Some(pair) = read_ratio(entries[i].0, o, by) {
                pairs.push(pair);
            }
        }
        i = i + 1;
    }
    assert(all.take(all.len() as int) =~= all);
    Cell::Ratios(pairs, expected)
}

// ---------------------------------------------------------------------------
// Extremes
// ---------------------------------------------------------------------------

/// The least number of a list that is not empty.
pub open spec fn least(values: Seq<Real>) -> Real
    decreases values.len(),
{
    if values.len() <= 1 {
        values[0]
    } else {
        let best = least(values.drop_last());
        if values.last().place() < best.place() {
            values.last()
        } else {
            best
        }
    }
}

/// The greatest number of a list that is not empty.
pub open spec fn greatest(values: Seq<Real>) -> Real
    decreases values.len(),
{
    if values.len() <= 1 {
        values[0]
    } else {
        let best = greatest(values.drop_last());
        if values.last().place() > best.place() {
            values.last()
        } else {
            best
        }
    }
}

/// The efficiencies over corpora, in one cell.
pub open spec fn efficiency_cell(values: Seq<Real>) -> Cell {
    if values.len() == 0 {
        Cell::Dash
    } else {
        Cell::EfficiencyRange(the_median(values), least(values), greatest(values))
    }
}

fn efficiency(entries: &Vec<Compared<'_>>, padding: Padding) -> (c: Cell)
    ensures
        c == efficiency_cell(figures(plain(entries@), Figure::Efficiency(padding))),
        c@ == Shown::Plain(c),
{
    let values = collect(entries, Figure::Efficiency(padding));
    if values.len() == 0 {
        return Cell::Dash;
    }
    let m = median(values.as_slice());
    proof {
        lemma_the_median(values@, m);
    }
    let mut low = values[0];
    let mut high = values[0];
    let mut i: usize = 1;
    while i < values.len()
        invariant
            1 <= i <= values@.len(),
            low == least(values@.take(i as int)),
            high == greatest(values@.take(i as int)),
        decreases values@.len() - i,
    {
        assert(values@.take(i + 1).drop_last() =~= values@.take(i as int));
        let v = values[i];
        if !low.at_most(&v) {
            low = v;
        }
        if !v.at_most(&high) {
            high = v;
        }
        i = i + 1;
    }
    assert(values@.take(values@.len() as int) =~= values@);
    Cell::EfficiencyRange(m, low, high)
}

/// The numbers of latency samples of the measured entries.
pub open spec fn sample_counts(entries: Seq<(EngineResult, Option<EngineResult>)>) -> Seq<usize>
    decreases entries.len(),
{
    if entries.len() == 0 {
        Seq::empty()
    } else {
        let r = entries.last().0;
        if r.latency_p50_us is Some && r.latency_samples is Some {
            sample_counts(entries.drop_last()).push(r.latency_samples->0)
        } else {
            sample_counts(entries.drop_last())
        }
    }
}

/// Whether `low` and `high` are the least and the greatest of a list.
pub open spec fn are_extremes(values: Seq<usize>, low: usize, high: usize) -> bool {
    &&& values.contains(low)
    &&& values.contains(high)
    &&& forall|i: int| 0 <= i < values.len() ==> low <= #[trigger] values[i] <= high
}

/// The number of samples: one where all entries agree, else the range.
pub open spec fn is_samples_cell(values: Seq<usize>, c: Cell) -> bool {
    if values.len() == 0 {
        c == Cell::Dash
    } else {
        match c {
            Cell::Count(n) => are_extremes(values, n, n),
            Cell::Range(low, high) => low != high && are_extremes(values, low, high),
            _ => false,
        }
    }
}

fn samples(entries: &Vec<Compared<'_>>) -> (c: Cell)
    ensures
        is_samples_cell(sample_counts(plain(entries@)), c),
        c@ == Shown::Plain(c),
{
    let ghost all = plain(entries@);
    let mut found = false;
    let mut low: usize = 0;
    let mut high: usize = 0;
    let mut i: usize = 0;
    assert(all.take(0) =~= Seq::empty());
    while i < entries.len()
        invariant
            i <= entries@.len(),
            all == plain(entries@),
            found <==> sample_counts(all.take(i as int)).len() > 0,
            found ==> are_extremes(sample_counts(all.take(i as int)), low, high),
        decreases entries@.len() - i,
    {
        assert(all.take(i + 1).drop_last() =~= all.take(i as int));
        let r = entries[i].0;
        if r.latency_p50_us.is_some() {
            if let Some(n) = r.latency_samples {
                let ghost was = sample_counts(all.take(i as int));
                let ghost now = was.push(n);
                let ghost was_low = low;
                let ghost was_high = high;
                if !found || n < low {
                    low = n;
                }
                if !found || n > high {
                    high = n;
                }
                proof {
                    assert(now[was.len() as int] == n);
                    if found {
                        let a = choose|k: int| 0 <= k < was.len() && was[k] == was_low;
                        let b = choose|k: int| 0 <= k < was.len() && was[k] == was_high;
                        assert(now[a] == was_low && now[b] == was_high);
                    }
                    assert(sample_counts(all.take(i + 1)) =~= now);
                }
                found = true;
            }
        }
        i = i + 1;
    }
    assert(all.take(all.len() as int) =~= all);
    if !found {
        Cell::Dash
    } else if low != high {
        Cell::Range(low, high)
    } else {
        Cell::Count(low)
    }
}

/// The worker count of the first measured entry.
pub open spec fn workers_of(entries: Seq<(EngineResult, Option<EngineResult>)>) -> Option<usize>
    decreases entries.len(),
{
    if entries.len() == 0 {
        None
    } else if entries[0].0.heap_encode_mb is Some {
        entries[0].0.memory_threads
    } else {
        workers_of(entries.drop_first())
    }
}

fn workers(entries: &Vec<Compared<'_>>) -> (c: Cell)
    ensures
        c == crate::table::count_cell(workers_of(plain(entries@))),
        c@ == Shown::Plain(c),
{
    let ghost all = plain(entries@);
    let mut i: usize = 0;
    assert(all.skip(0) =~= all);
    while i < entries.len()
        invariant
            i <= entries@.len(),
            all == plain(entries@),
            workers_of(all) == workers_of(all.skip(i as int)),
        decreases entries@.len() - i,
    {
        assert(all.skip(i as int)[0] == (*entries@[i as int].0, behind(entries@[i as int].1)));
        if entries[i].0.heap_encode_mb.is_some() {
            return match entries[i].0.memory_threads {
                Some(n) => Cell::Count(n),
                None => Cell::Dash,
            };
        }
        assert(all.skip(i as int).drop_first() =~= all.skip(i + 1));
        i = i + 1;
    }
    Cell::Dash
}

// ---------------------------------------------------------------------------
// Rows
// ---------------------------------------------------------------------------

/// The cells of one padding mode.
pub open spec fn mode_cells(
    entries: Seq<(EngineResult, Option<EngineResult>)>,
    padding: Padding,
) -> Seq<Shown> {
    seq![
        Shown::Plain(median_cell(figures(entries, Figure::First(padding)), 1)),
        Shown::Plain(median_cell(figures(entries, Figure::Widest(padding)), 1)),
        Shown::Plain(efficiency_cell(figures(entries, Figure::Efficiency(padding)))),
    ]
}

/// The ratios of one padding mode.
pub open spec fn mode_ratios(
    entries: Seq<(EngineResult, Option<EngineResult>)>,
    padding: Padding,
    expected: usize,
) -> Seq<Shown> {
    seq![
        Shown::Ratios(ratios(entries, Comparison::First(padding)), expected),
        Shown::Ratios(ratios(entries, Comparison::Widest(padding)), expected),
    ]
}

/// The cells of one model and engine, after the labels. `samples` is the cell
/// of the sample counts.
pub open spec fn collapsed_cells(
    entries: Seq<(EngineResult, Option<EngineResult>)>,
    measurement: MeasureCommand,
    compare: bool,
    expected: usize,
    samples: Cell,
) -> Seq<Shown> {
    let part = Shown::Plain(
        Cell::Part {
            measured: completed(entries, measurement) as usize,
            expected,
            said: compare || measurement == MeasureCommand::Memory,
        },
    );
    match measurement {
        MeasureCommand::Encode => seq![
            part,
            Shown::Plain(median_cell(figures(entries, Figure::Mbps), 1)),
            Shown::Plain(median_cell(figures(entries, Figure::NsPerByte), 2)),
        ] + if compare {
            seq![Shown::Ratios(ratios(entries, Comparison::Encode), expected)]
        } else {
            Seq::empty()
        },
        MeasureCommand::Decode => seq![
            part,
            Shown::Plain(median_cell(figures(entries, Figure::DecodeMbps), 1)),
            Shown::Plain(median_cell(figures(entries, Figure::DecodeNs), 1)),
        ] + if compare {
            seq![Shown::Ratios(ratios(entries, Comparison::Decode), expected)]
        } else {
            Seq::empty()
        },
        MeasureCommand::Latency => seq![
            part,
            Shown::Plain(median_cell(figures(entries, Figure::P50), 2)),
            Shown::Plain(median_cell(figures(entries, Figure::P99), 2)),
            Shown::Plain(samples),
        ] + if compare {
            seq![
                Shown::Ratios(ratios(entries, Comparison::P50), expected),
                Shown::Ratios(ratios(entries, Comparison::P99), expected),
            ]
        } else {
            Seq::empty()
        },
        MeasureCommand::Scaling => seq![part] + mode_cells(entries, Padding::Off) + mode_cells(
            entries,
            Padding::Longest,
        ) + if compare {
            mode_ratios(entries, Padding::Off, expected) + mode_ratios(
                entries,
                Padding::Longest,
                expected,
            )
        } else {
            Seq::empty()
        },
        MeasureCommand::Memory => seq![
            part,
            Shown::Plain(median_cell(figures(entries, Figure::HeapLoad), 1)),
            Shown::Plain(median_cell(figures(entries, Figure::HeapEncode), 1)),
            Shown::Plain(crate::table::count_cell(workers_of(entries))),
        ] + if compare {
            seq![
                Shown::Ratios(ratios(entries, Comparison::HeapLoad), expected),
                Shown::Ratios(ratios(entries, Comparison::HeapEncode), expected),
            ]
        } else {
            Seq::empty()
        },
    }
}

/// Whether these are the cells of one model and engine.
pub open spec fn are_collapsed_cells(
    entries: Seq<(EngineResult, Option<EngineResult>)>,
    measurement: MeasureCommand,
    compare: bool,
    expected: usize,
    cells: Seq<Shown>,
) -> bool {
    exists|samples: Cell|
        is_samples_cell(sample_counts(entries), samples) && cells == #[trigger] collapsed_cells(
            entries,
            measurement,
            compare,
            expected,
            samples,
        )
}

fn mode(entries: &Vec<Compared<'_>>, padding: Padding, row: &mut Vec<Cell>)
    ensures
        shown(final(row)@) == shown(old(row)@) + mode_cells(plain(entries@), padding),
{
    row.push(median_figure(entries, Figure::First(padding), 1));
    row.push(median_figure(entries, Figure::Widest(padding), 1));
    row.push(efficiency(entries, padding));
    assert(shown(row@) =~= shown(old(row)@) + mode_cells(plain(entries@), padding));
}

fn compare_mode(
    entries: &Vec<Compared<'_>>,
    padding: Padding,
    expected: usize,
    row: &mut Vec<Cell>,
)
    ensures
        shown(final(row)@) == shown(old(row)@) + mode_ratios(plain(entries@), padding, expected),
{
    row.push(ratios_cell(entries, Comparison::First(padding), expected));
    row.push(ratios_cell(entries, Comparison::Widest(padding), expected));
    assert(shown(row@) =~= shown(old(row)@) + mode_ratios(plain(entries@), padding, expected));
}

/// Adds the cells of one model and engine to a row.
pub fn push_collapsed_cells(
    entries: &Vec<Compared<'_>>,
    measurement: MeasureCommand,
    compare: bool,
    expected: usize,
    row: &mut Vec<Cell>,
)
    ensures
        exists|cells: Seq<Shown>| #[trigger]
            are_collapsed_cells(plain(entries@), measurement, compare, expected, cells) && shown(
                final(row)@,
            ) == shown(old(row)@) + cells,
{
    let ghost all = plain(entries@);
    let ghost start = shown(row@);
    let counts = samples(entries);
    let ghost told = counts;
    row.push(
        Cell::Part {
            measured: count_complete(entries, measurement),
            expected,
            said: compare || measurement == MeasureCommand::Memory,
        },
    );
    match measurement {
        MeasureCommand::Encode => {
            row.push(median_figure(entries, Figure::Mbps, 1));
            row.push(median_figure(entries, Figure::NsPerByte, 2));
            if compare {
                row.push(ratios_cell(entries, Comparison::Encode, expected));
            }
        },
        MeasureCommand::Decode => {
            row.push(median_figure(entries, Figure::DecodeMbps, 1));
            row.push(median_figure(entries, Figure::DecodeNs, 1));
            if compare {
                row.push(ratios_cell(entries, Comparison::Decode, expected));
            }
        },
        MeasureCommand::Latency => {
            row.push(median_figure(entries, Figure::P50, 2));
            row.push(median_figure(entries, Figure::P99, 2));
            row.push(counts);
            if compare {
                row.push(ratios_cell(entries, Comparison::P50, expected));
                row.push(ratios_cell(entries, Comparison::P99, expected));
            }
        },
        MeasureCommand::Scaling => {
            mode(entries, Padding::Off, row);
            mode(entries, Padding::Longest, row);
            if compare {
                compare_mode(entries, Padding::Off, expected, row);
                compare_mode(entries, Padding::Longest, expected, row);
            }
        },
        MeasureCommand::Memory => {
            row.push(median_figure(entries, Figure::HeapLoad, 1));
            row.push(median_figure(entries, Figure::HeapEncode, 1));
            row.push(workers(entries));
            if compare {
                row.push(ratios_cell(entries, Comparison::HeapLoad, expected));
                row.push(ratios_cell(entries, Comparison::HeapEncode, expected));
            }
        },
    }
    proof {
        let cells = collapsed_cells(all, measurement, compare, expected, told);
        assert(shown(row@) =~= start + cells);
        assert(are_collapsed_cells(all, measurement, compare, expected, cells));
    }
}

// ---------------------------------------------------------------------------
// What a row says
// ---------------------------------------------------------------------------

proof fn lemma_figures(entries: Seq<Compared<'_>>, figure: Figure)
    ensures
        figures(plain(entries), figure) == entries.filter_map(
            |e: Compared<'_>| figure_of(*e.0, figure),
        ),
    decreases entries.len(),
{
    let f = |e: Compared<'_>| figure_of(*e.0, figure);
    if entries.len() > 0 {
        lemma_figures(entries.drop_last(), figure);
        assert(plain(entries).drop_last() =~= plain(entries.drop_last()));
        let rest = entries.drop_last().filter_map(f);
        match f(entries.last()) {
            Some(v) => {
                assert(rest.push(v) =~= rest + seq![v]);
            },
            None => {},
        }
    } else {
        assert(figures(plain(entries), figure) =~= entries.filter_map(f));
    }
}

/// The ratio of an entry, where it has another to be compared with.
spec fn entry_ratio(e: Compared<'_>, by: Comparison) -> Option<(Real, Real)> {
    match e.1 {
        Some(o) => ratio_of(*e.0, *o, by),
        None => None,
    }
}

proof fn lemma_ratios(entries: Seq<Compared<'_>>, by: Comparison)
    ensures
        ratios(plain(entries), by) == entries.filter_map(|e: Compared<'_>| entry_ratio(e, by)),
    decreases entries.len(),
{
    let f = |e: Compared<'_>| entry_ratio(e, by);
    if entries.len() > 0 {
        lemma_ratios(entries.drop_last(), by);
        assert(plain(entries).drop_last() =~= plain(entries.drop_last()));
        let rest = entries.drop_last().filter_map(f);
        match f(entries.last()) {
            Some(v) => {
                assert(rest.push(v) =~= rest + seq![v]);
            },
            None => {},
        }
    } else {
        assert(ratios(plain(entries), by) =~= entries.filter_map(f));
    }
}

proof fn lemma_completed(entries: Seq<Compared<'_>>, measurement: MeasureCommand)
    ensures
        completed(plain(entries), measurement) == entries.filter(
            |e: Compared<'_>| complete(*e.0, measurement),
        ).len(),
    decreases entries.len(),
{
    reveal(Seq::filter);
    if entries.len() > 0 {
        lemma_completed(entries.drop_last(), measurement);
        assert(plain(entries).drop_last() =~= plain(entries.drop_last()));
    }
}

/// Whether a cell shows the median of some numbers, or nothing where there are
/// none.
pub open spec fn shows_median(c: Cell, values: Seq<Real>, decimals: usize) -> bool {
    if values.len() == 0 {
        c is Dash
    } else {
        c matches Cell::MedianFixed(m, d) && d == decimals && is_median(values, m)
    }
}

/// Whether a cell holds these ratios out of so many that were expected.
pub open spec fn shows_ratios(c: Cell, pairs: Seq<(Real, Real)>, expected: usize) -> bool {
    c matches Cell::Ratios(list, n) && list@ == pairs && n == expected
}

/// Whether a cell says how many of the expected ones were measured.
pub open spec fn shows_part(c: Cell, measured: nat, expected: usize, said: bool) -> bool {
    c == (Cell::Part { measured: measured as usize, expected, said })
}

proof fn lemma_shows_median(c: Cell, values: Seq<Real>, decimals: usize)
    requires
        c@ == Shown::Plain(median_cell(values, decimals)),
        values.len() <= usize::MAX,
    ensures
        shows_median(c, values, decimals),
{
    if values.len() > 0 {
        lemma_some_median(values);
    }
}

proof fn lemma_filter_map_len<A, B>(list: Seq<A>, f: spec_fn(A) -> Option<B>)
    ensures
        list.filter_map(f).len() <= list.len(),
    decreases list.len(),
{
    if list.len() > 0 {
        lemma_filter_map_len(list.drop_last(), f);
    }
}

/// The row was extended by these cells and by nothing else.
spec fn extended(before: Seq<Cell>, after: Seq<Cell>, cells: Seq<Shown>) -> bool {
    &&& after.len() == before.len() + cells.len()
    &&& forall|k: int| 0 <= k < before.len() ==> (#[trigger] after[k])@ == before[k]@
    &&& forall|k: int| 0 <= k < cells.len() ==> after[before.len() + k]@ == #[trigger] cells[k]
}

proof fn lemma_extended(before: Seq<Cell>, after: Seq<Cell>, cells: Seq<Shown>)
    requires
        shown(after) == shown(before) + cells,
    ensures
        extended(before, after, cells),
{
    assert(shown(after).len() == after.len());
    assert forall|k: int| 0 <= k < before.len() implies (#[trigger] after[k])@ == before[k]@ by {
        assert(shown(after)[k] == shown(before)[k]);
    }
    assert forall|k: int| 0 <= k < cells.len() implies after[before.len() + k]@
        == #[trigger] cells[k] by {
        assert(shown(after)[before.len() + k] == cells[k]);
    }
}

/// An encode row over several corpora counts the cells the engine ran, and shows
/// the medians of the throughput and of the time per byte over exactly those.
///
/// Beside another engine it holds one ratio for each cell that both ran, with the
/// same ids, that neither was found wrong in, and in which the other's throughput
/// is above zero: this engine's throughput over the other's.
pub proof fn law_encode_row(
    entries: &Vec<Compared<'_>>,
    compare: bool,
    expected: usize,
    before: Vec<Cell>,
    after: Vec<Cell>,
)
    requires
        exists|row: &mut Vec<Cell>|
            *row == before && *final(row) == after && #[trigger] call_ensures(
                push_collapsed_cells,
                (entries, MeasureCommand::Encode, compare, expected, row),
                (),
            ),
    ensures
        ({
            let n = before@.len() as int;
            let ran = |e: Compared<'_>| e.0.unsupported is None;
            &&& after@.len() == n + if compare {
                4int
            } else {
                3
            }
            &&& shows_part(after@[n], entries@.filter(ran).len(), expected, compare)
            &&& shows_median(
                after@[n + 1],
                entries@.filter_map(
                    |e: Compared<'_>|
                        if e.0.unsupported is None {
                            Some(e.0.mbps)
                        } else {
                            None
                        },
                ),
                1,
            )
            &&& shows_median(
                after@[n + 2],
                entries@.filter_map(
                    |e: Compared<'_>|
                        if e.0.unsupported is None {
                            Some(e.0.ns_per_byte)
                        } else {
                            None
                        },
                ),
                2,
            )
            &&& compare ==> shows_ratios(
                after@[n + 3],
                entries@.filter_map(
                    |e: Compared<'_>|
                        if e.0.unsupported is None && e.1 is Some && e.1->0.unsupported is None
                            && e.0.ids_hash@ == e.1->0.ids_hash@ && e.0.verified != Some(false)
                            && e.1->0.verified != Some(false) && e.1->0.mbps.is_positive() {
                            Some((e.0.mbps, e.1->0.mbps))
                        } else {
                            None
                        },
                ),
                expected,
            )
        }),
{
    let list = entries@;
    assert(list.len() == entries.len());
    let all = plain(list);
    let cells = choose|cells: Seq<Shown>| #[trigger]
        are_collapsed_cells(all, MeasureCommand::Encode, compare, expected, cells) && shown(after@)
            == shown(before@) + cells;
    lemma_extended(before@, after@, cells);
    let n = before@.len() as int;
    assert(after@[n + 0]@ == cells[0]);
    assert(after@[n + 1]@ == cells[1]);
    assert(after@[n + 2]@ == cells[2]);
    lemma_completed(list, MeasureCommand::Encode);
    assert((|e: Compared<'_>| complete(*e.0, MeasureCommand::Encode)) =~= (|e: Compared<'_>|
        e.0.unsupported is None));
    lemma_figures(list, Figure::Mbps);
    let mbps = |e: Compared<'_>|
        if e.0.unsupported is None {
            Some(e.0.mbps)
        } else {
            None
        };
    assert((|e: Compared<'_>| figure_of(*e.0, Figure::Mbps)) =~= mbps);
    lemma_filter_map_len(list, mbps);
    lemma_shows_median(after@[n + 1], list.filter_map(mbps), 1);
    lemma_figures(list, Figure::NsPerByte);
    let ns = |e: Compared<'_>|
        if e.0.unsupported is None {
            Some(e.0.ns_per_byte)
        } else {
            None
        };
    assert((|e: Compared<'_>| figure_of(*e.0, Figure::NsPerByte)) =~= ns);
    lemma_filter_map_len(list, ns);
    lemma_shows_median(after@[n + 2], list.filter_map(ns), 2);
    if compare {
        assert(after@[n + 3]@ == cells[3]);
        lemma_ratios(list, Comparison::Encode);
        let ratio = |e: Compared<'_>|
            if e.0.unsupported is None && e.1 is Some && e.1->0.unsupported is None && e.0.ids_hash@
                == e.1->0.ids_hash@ && e.0.verified != Some(false) && e.1->0.verified != Some(false)
                && e.1->0.mbps.is_positive() {
                Some((e.0.mbps, e.1->0.mbps))
            } else {
                None
            };
        assert((|e: Compared<'_>| entry_ratio(e, Comparison::Encode)) =~= ratio);
    }
}

/// Whether a cell shows how many samples were taken: one number where all agree,
/// else the least and the greatest, and nothing where there are none.
pub open spec fn shows_counts(c: Cell, values: Seq<usize>) -> bool {
    match c {
        Cell::Dash => values.len() == 0,
        Cell::Count(n) => values.len() > 0 && forall|i: int|
            0 <= i < values.len() ==> #[trigger] values[i] == n,
        Cell::Range(low, high) => low < high && values.contains(low) && values.contains(high)
            && forall|i: int| 0 <= i < values.len() ==> low <= #[trigger] values[i] <= high,
        _ => false,
    }
}

/// Whether a cell shows the median, the least and the greatest of some
/// efficiencies, or nothing where there are none.
pub open spec fn shows_spread(c: Cell, values: Seq<Real>) -> bool {
    if values.len() == 0 {
        c is Dash
    } else {
        c matches Cell::EfficiencyRange(m, low, high) && is_median(values, m) && values.contains(
            low,
        ) && values.contains(high) && forall|i: int|
            0 <= i < values.len() ==> low.place() <= (#[trigger] values[i]).place()
                <= high.place()
    }
}

proof fn lemma_spread(values: Seq<Real>)
    requires
        values.len() > 0,
    ensures
        values.contains(least(values)),
        values.contains(greatest(values)),
        forall|i: int|
            0 <= i < values.len() ==> least(values).place() <= (#[trigger] values[i]).place()
                <= greatest(values).place(),
    decreases values.len(),
{
    if values.len() > 1 {
        let less = values.drop_last();
        lemma_spread(less);
        let a = choose|a: int| 0 <= a < less.len() && less[a] == least(less);
        let b = choose|b: int| 0 <= b < less.len() && less[b] == greatest(less);
        assert(values[a] == least(less) && values[b] == greatest(less));
        assert(values[values.len() - 1] == values.last());
        assert forall|i: int| 0 <= i < values.len() implies least(values).place() <= (
        #[trigger] values[i]).place() <= greatest(values).place() by {
            if i < less.len() {
                assert(less[i] == values[i]);
            }
        }
    } else {
        assert(values[0] == least(values));
    }
}

proof fn lemma_shows_spread(c: Cell, values: Seq<Real>)
    requires
        c@ == Shown::Plain(efficiency_cell(values)),
        values.len() <= usize::MAX,
    ensures
        shows_spread(c, values),
{
    if values.len() > 0 {
        lemma_some_median(values);
        lemma_spread(values);
    }
}

proof fn lemma_sample_counts(entries: Seq<Compared<'_>>)
    ensures
        sample_counts(plain(entries)) == entries.filter_map(
            |e: Compared<'_>|
                if e.0.latency_p50_us is Some {
                    e.0.latency_samples
                } else {
                    None
                },
        ),
    decreases entries.len(),
{
    let f = |e: Compared<'_>|
        if e.0.latency_p50_us is Some {
            e.0.latency_samples
        } else {
            None
        };
    if entries.len() > 0 {
        lemma_sample_counts(entries.drop_last());
        assert(plain(entries).drop_last() =~= plain(entries.drop_last()));
        let rest = entries.drop_last().filter_map(f);
        match f(entries.last()) {
            Some(v) => {
                assert(rest.push(v) =~= rest + seq![v]);
            },
            None => {},
        }
    } else {
        assert(sample_counts(plain(entries)) =~= entries.filter_map(f));
    }
}

/// Whether a cell shows the workers of the first entry with a working heap.
pub open spec fn shows_workers(c: Cell, entries: Seq<Compared<'_>>) -> bool {
    &&& (forall|k: int| 0 <= k < entries.len() ==> (#[trigger] entries[k]).0.heap_encode_mb is None)
        ==> c is Dash
    &&& forall|k: int|
        #![trigger entries[k]]
        0 <= k < entries.len() && entries[k].0.heap_encode_mb is Some && (forall|i: int|
            0 <= i < k ==> (#[trigger] entries[i]).0.heap_encode_mb is None) ==> c == (
        match entries[k].0.memory_threads {
            Some(n) => Cell::Count(n),
            None => Cell::Dash,
        })
}

proof fn lemma_workers(entries: Seq<Compared<'_>>, k: int)
    requires
        0 <= k <= entries.len(),
        forall|i: int| 0 <= i < k ==> (#[trigger] entries[i]).0.heap_encode_mb is None,
        k < entries.len() ==> entries[k].0.heap_encode_mb is Some,
    ensures
        workers_of(plain(entries)) == if k < entries.len() {
            entries[k].0.memory_threads
        } else {
            None
        },
    decreases entries.len(),
{
    if entries.len() > 0 && k > 0 {
        assert(entries[0].0.heap_encode_mb is None);
        let rest = entries.drop_first();
        assert(plain(entries).drop_first() =~= plain(rest));
        assert forall|i: int| 0 <= i < k - 1 implies (
        #[trigger] rest[i]).0.heap_encode_mb is None by {
            assert(rest[i] == entries[i + 1]);
        }
        lemma_workers(rest, k - 1);
    }
}

/// A decode row over several corpora counts the cells with a decode number, and
/// shows the medians of the throughput and of the time per token over those.
///
/// Beside another engine it holds one ratio for each cell that both decoded, to
/// the same text, that neither was found wrong in, and in which the other's
/// throughput is above zero: this engine's throughput over the other's.
pub proof fn law_decode_row(
    entries: &Vec<Compared<'_>>,
    compare: bool,
    expected: usize,
    before: Vec<Cell>,
    after: Vec<Cell>,
)
    requires
        exists|row: &mut Vec<Cell>|
            *row == before && *final(row) == after && #[trigger] call_ensures(
                push_collapsed_cells,
                (entries, MeasureCommand::Decode, compare, expected, row),
                (),
            ),
    ensures
        ({
            let n = before@.len() as int;
            &&& after@.len() == n + if compare {
                4int
            } else {
                3
            }
            &&& shows_part(
                after@[n],
                entries@.filter(|e: Compared<'_>| e.0.decode_mbps is Some).len(),
                expected,
                compare,
            )
            &&& shows_median(
                after@[n + 1],
                entries@.filter_map(
                    |e: Compared<'_>| e.0.decode_mbps,
                ),
                1,
            )
            &&& shows_median(
                after@[n + 2],
                entries@.filter_map(
                    |e: Compared<'_>|
                        if e.0.decode_mbps is Some {
                            e.0.decode_ns_per_token
                        } else {
                            None
                        },
                ),
                1,
            )
            &&& compare ==> shows_ratios(
                after@[n + 3],
                entries@.filter_map(
                    |e: Compared<'_>|
                        if e.1 is Some
                            && text_of(e.0.decode_text_hash) == text_of(e.1->0.decode_text_hash)
                            && e.0.verified != Some(false) && e.1->0.verified != Some(false)
                            && e.0.decode_verified != Some(false)
                            && e.1->0.decode_verified != Some(false) && e.0.decode_mbps is Some
                            && e.1->0.decode_mbps is Some && e.1->0.decode_mbps->0.is_positive() {
                            Some((e.0.decode_mbps->0, e.1->0.decode_mbps->0))
                        } else {
                            None
                        },
                ),
                expected,
            )
        }),
{
    let list = entries@;
    assert(list.len() == entries.len());
    let all = plain(list);
    let cells = choose|cells: Seq<Shown>| #[trigger]
        are_collapsed_cells(all, MeasureCommand::Decode, compare, expected, cells) && shown(after@)
            == shown(before@) + cells;
    lemma_extended(before@, after@, cells);
    let n = before@.len() as int;
    assert(after@[n + 0]@ == cells[0]);
    lemma_completed(list, MeasureCommand::Decode);
    assert((|e: Compared<'_>| complete(*e.0, MeasureCommand::Decode)) =~= (|e: Compared<'_>|
        e.0.decode_mbps is Some));
    assert(after@[n + 1]@ == cells[1]);
    lemma_figures(list, Figure::DecodeMbps);
    let f1 = |e: Compared<'_>| e.0.decode_mbps;
    assert((|e: Compared<'_>| figure_of(*e.0, Figure::DecodeMbps)) =~= f1);
    lemma_filter_map_len(list, f1);
    lemma_shows_median(after@[n + 1], list.filter_map(f1), 1);
    assert(after@[n + 2]@ == cells[2]);
    lemma_figures(list, Figure::DecodeNs);
    let f2 = |e: Compared<'_>|
        if e.0.decode_mbps is Some {
            e.0.decode_ns_per_token
        } else {
            None
        };
    assert((|e: Compared<'_>| figure_of(*e.0, Figure::DecodeNs)) =~= f2);
    lemma_filter_map_len(list, f2);
    lemma_shows_median(after@[n + 2], list.filter_map(f2), 1);
    if compare {
        assert(after@[n + 3]@ == cells[3]);
        lemma_ratios(list, Comparison::Decode);
        let ratio = |e: Compared<'_>|
            if e.1 is Some && text_of(e.0.decode_text_hash) == text_of(e.1->0.decode_text_hash)
                && e.0.verified != Some(false) && e.1->0.verified != Some(false)
                && e.0.decode_verified != Some(false) && e.1->0.decode_verified != Some(false)
                && e.0.decode_mbps is Some && e.1->0.decode_mbps is Some
                && e.1->0.decode_mbps->0.is_positive() {
                Some((e.0.decode_mbps->0, e.1->0.decode_mbps->0))
            } else {
                None
            };
        assert((|e: Compared<'_>| entry_ratio(e, Comparison::Decode)) =~= ratio);
    }
}

/// A latency row over several corpora counts the cells with a median latency, and
/// shows the medians of both percentiles over those, and how many samples they
/// were taken from: one number where all agree, else the least and the greatest.
///
/// Beside another engine it holds one ratio for each cell that both have the
/// percentile of and this engine's is above zero: the other's latency over this
/// engine's, so that a shorter latency is a greater ratio.
pub proof fn law_latency_row(
    entries: &Vec<Compared<'_>>,
    compare: bool,
    expected: usize,
    before: Vec<Cell>,
    after: Vec<Cell>,
)
    requires
        exists|row: &mut Vec<Cell>|
            *row == before && *final(row) == after && #[trigger] call_ensures(
                push_collapsed_cells,
                (entries, MeasureCommand::Latency, compare, expected, row),
                (),
            ),
    ensures
        ({
            let n = before@.len() as int;
            &&& after@.len() == n + if compare {
                6int
            } else {
                4
            }
            &&& shows_part(
                after@[n],
                entries@.filter(|e: Compared<'_>| e.0.latency_p50_us is Some).len(),
                expected,
                compare,
            )
            &&& shows_median(
                after@[n + 1],
                entries@.filter_map(
                    |e: Compared<'_>| e.0.latency_p50_us,
                ),
                2,
            )
            &&& shows_median(
                after@[n + 2],
                entries@.filter_map(
                    |e: Compared<'_>|
                        if e.0.latency_p50_us is Some {
                            e.0.latency_p99_us
                        } else {
                            None
                        },
                ),
                2,
            )
            &&& shows_counts(
                after@[n + 3],
                entries@.filter_map(
                    |e: Compared<'_>|
                        if e.0.latency_p50_us is Some {
                            e.0.latency_samples
                        } else {
                            None
                        },
                ),
            )
            &&& compare ==> shows_ratios(
                after@[n + 4],
                entries@.filter_map(
                    |e: Compared<'_>|
                        if e.1 is Some && e.0.verified != Some(false)
                            && e.1->0.verified != Some(false) && e.0.latency_p50_us is Some
                            && e.1->0.latency_p50_us is Some
                            && e.0.latency_p50_us->0.is_positive() {
                            Some((e.1->0.latency_p50_us->0, e.0.latency_p50_us->0))
                        } else {
                            None
                        },
                ),
                expected,
            )
            &&& compare ==> shows_ratios(
                after@[n + 5],
                entries@.filter_map(
                    |e: Compared<'_>|
                        if e.1 is Some && e.0.verified != Some(false)
                            && e.1->0.verified != Some(false) && e.0.latency_p50_us is Some
                            && e.0.latency_p99_us is Some && e.1->0.latency_p99_us is Some
                            && e.0.latency_p99_us->0.is_positive() {
                            Some((e.1->0.latency_p99_us->0, e.0.latency_p99_us->0))
                        } else {
                            None
                        },
                ),
                expected,
            )
        }),
{
    let list = entries@;
    assert(list.len() == entries.len());
    let all = plain(list);
    let cells = choose|cells: Seq<Shown>| #[trigger]
        are_collapsed_cells(all, MeasureCommand::Latency, compare, expected, cells) && shown(after@)
            == shown(before@) + cells;
    lemma_extended(before@, after@, cells);
    let n = before@.len() as int;
    assert(after@[n + 0]@ == cells[0]);
    lemma_completed(list, MeasureCommand::Latency);
    assert((|e: Compared<'_>| complete(*e.0, MeasureCommand::Latency)) =~= (|e: Compared<'_>|
        e.0.latency_p50_us is Some));
    assert(after@[n + 1]@ == cells[1]);
    lemma_figures(list, Figure::P50);
    let f1 = |e: Compared<'_>| e.0.latency_p50_us;
    assert((|e: Compared<'_>| figure_of(*e.0, Figure::P50)) =~= f1);
    lemma_filter_map_len(list, f1);
    lemma_shows_median(after@[n + 1], list.filter_map(f1), 2);
    assert(after@[n + 2]@ == cells[2]);
    lemma_figures(list, Figure::P99);
    let f2 = |e: Compared<'_>|
        if e.0.latency_p50_us is Some {
            e.0.latency_p99_us
        } else {
            None
        };
    assert((|e: Compared<'_>| figure_of(*e.0, Figure::P99)) =~= f2);
    lemma_filter_map_len(list, f2);
    lemma_shows_median(after@[n + 2], list.filter_map(f2), 2);
    assert(after@[n + 3]@ == cells[3]);
    lemma_sample_counts(list);
    if compare {
        assert(after@[n + 4]@ == cells[4]);
        lemma_ratios(list, Comparison::P50);
        let ratio = |e: Compared<'_>|
            if e.1 is Some && e.0.verified != Some(false) && e.1->0.verified != Some(false)
                && e.0.latency_p50_us is Some && e.1->0.latency_p50_us is Some
                && e.0.latency_p50_us->0.is_positive() {
                Some((e.1->0.latency_p50_us->0, e.0.latency_p50_us->0))
            } else {
                None
            };
        assert((|e: Compared<'_>| entry_ratio(e, Comparison::P50)) =~= ratio);
    }
    if compare {
        assert(after@[n + 5]@ == cells[5]);
        lemma_ratios(list, Comparison::P99);
        let ratio = |e: Compared<'_>|
            if e.1 is Some && e.0.verified != Some(false) && e.1->0.verified != Some(false)
                && e.0.latency_p50_us is Some && e.0.latency_p99_us is Some
                && e.1->0.latency_p99_us is Some && e.0.latency_p99_us->0.is_positive() {
                Some((e.1->0.latency_p99_us->0, e.0.latency_p99_us->0))
            } else {
                None
            };
        assert((|e: Compared<'_>| entry_ratio(e, Comparison::P99)) =~= ratio);
    }
}

/// A memory row over several corpora counts the cells with a working heap, and
/// shows the medians of the loaded and of the working heap over those, and the
/// workers of the first of them.
///
/// Beside another engine it holds one ratio for each cell that both have the heap
/// of and the other's is above zero: this engine's heap over the other's.
pub proof fn law_memory_row(
    entries: &Vec<Compared<'_>>,
    compare: bool,
    expected: usize,
    before: Vec<Cell>,
    after: Vec<Cell>,
)
    requires
        exists|row: &mut Vec<Cell>|
            *row == before && *final(row) == after && #[trigger] call_ensures(
                push_collapsed_cells,
                (entries, MeasureCommand::Memory, compare, expected, row),
                (),
            ),
    ensures
        ({
            let n = before@.len() as int;
            &&& after@.len() == n + if compare {
                6int
            } else {
                4
            }
            &&& shows_part(
                after@[n],
                entries@.filter(|e: Compared<'_>| e.0.heap_encode_mb is Some).len(),
                expected,
                true,
            )
            &&& shows_median(
                after@[n + 1],
                entries@.filter_map(
                    |e: Compared<'_>|
                        if e.0.heap_encode_mb is Some {
                            e.0.heap_load_mb
                        } else {
                            None
                        },
                ),
                1,
            )
            &&& shows_median(
                after@[n + 2],
                entries@.filter_map(
                    |e: Compared<'_>| e.0.heap_encode_mb,
                ),
                1,
            )
            &&& shows_workers(after@[n + 3], entries@)
            &&& compare ==> shows_ratios(
                after@[n + 4],
                entries@.filter_map(
                    |e: Compared<'_>|
                        if e.1 is Some && e.0.verified != Some(false)
                            && e.1->0.verified != Some(false) && e.0.heap_encode_mb is Some
                            && e.0.heap_load_mb is Some && e.1->0.heap_load_mb is Some
                            && e.1->0.heap_load_mb->0.is_positive() {
                            Some((e.0.heap_load_mb->0, e.1->0.heap_load_mb->0))
                        } else {
                            None
                        },
                ),
                expected,
            )
            &&& compare ==> shows_ratios(
                after@[n + 5],
                entries@.filter_map(
                    |e: Compared<'_>|
                        if e.1 is Some && e.0.verified != Some(false)
                            && e.1->0.verified != Some(false) && e.0.heap_encode_mb is Some
                            && e.1->0.heap_encode_mb is Some
                            && e.1->0.heap_encode_mb->0.is_positive() {
                            Some((e.0.heap_encode_mb->0, e.1->0.heap_encode_mb->0))
                        } else {
                            None
                        },
                ),
                expected,
            )
        }),
{
    let list = entries@;
    assert(list.len() == entries.len());
    let all = plain(list);
    let cells = choose|cells: Seq<Shown>| #[trigger]
        are_collapsed_cells(all, MeasureCommand::Memory, compare, expected, cells) && shown(after@)
            == shown(before@) + cells;
    lemma_extended(before@, after@, cells);
    let n = before@.len() as int;
    assert(after@[n + 0]@ == cells[0]);
    lemma_completed(list, MeasureCommand::Memory);
    assert((|e: Compared<'_>| complete(*e.0, MeasureCommand::Memory)) =~= (|e: Compared<'_>|
        e.0.heap_encode_mb is Some));
    assert(after@[n + 1]@ == cells[1]);
    lemma_figures(list, Figure::HeapLoad);
    let f1 = |e: Compared<'_>|
        if e.0.heap_encode_mb is Some {
            e.0.heap_load_mb
        } else {
            None
        };
    assert((|e: Compared<'_>| figure_of(*e.0, Figure::HeapLoad)) =~= f1);
    lemma_filter_map_len(list, f1);
    lemma_shows_median(after@[n + 1], list.filter_map(f1), 1);
    assert(after@[n + 2]@ == cells[2]);
    lemma_figures(list, Figure::HeapEncode);
    let f2 = |e: Compared<'_>| e.0.heap_encode_mb;
    assert((|e: Compared<'_>| figure_of(*e.0, Figure::HeapEncode)) =~= f2);
    lemma_filter_map_len(list, f2);
    lemma_shows_median(after@[n + 2], list.filter_map(f2), 1);
    assert(after@[n + 3]@ == cells[3]);
    assert(shows_workers(after@[n + 3], list)) by {
        if forall|k: int| 0 <= k < list.len() ==> (#[trigger] list[k]).0.heap_encode_mb is None {
            lemma_workers(list, list.len() as int);
        }
        assert forall|k: int|
            #![trigger list[k]]
            0 <= k < list.len() && list[k].0.heap_encode_mb is Some && (forall|i: int|
                0 <= i < k ==> (#[trigger] list[i]).0.heap_encode_mb is None) implies after@[n
            + 3] == (match list[k].0.memory_threads {
            Some(n) => Cell::Count(n),
            None => Cell::Dash,
        }) by {
            lemma_workers(list, k);
        }
    }
    if compare {
        assert(after@[n + 4]@ == cells[4]);
        lemma_ratios(list, Comparison::HeapLoad);
        let ratio = |e: Compared<'_>|
            if e.1 is Some && e.0.verified != Some(false) && e.1->0.verified != Some(false)
                && e.0.heap_encode_mb is Some && e.0.heap_load_mb is Some
                && e.1->0.heap_load_mb is Some && e.1->0.heap_load_mb->0.is_positive() {
                Some((e.0.heap_load_mb->0, e.1->0.heap_load_mb->0))
            } else {
                None
            };
        assert((|e: Compared<'_>| entry_ratio(e, Comparison::HeapLoad)) =~= ratio);
    }
    if compare {
        assert(after@[n + 5]@ == cells[5]);
        lemma_ratios(list, Comparison::HeapEncode);
        let ratio = |e: Compared<'_>|
            if e.1 is Some && e.0.verified != Some(false) && e.1->0.verified != Some(false)
                && e.0.heap_encode_mb is Some && e.1->0.heap_encode_mb is Some
                && e.1->0.heap_encode_mb->0.is_positive() {
                Some((e.0.heap_encode_mb->0, e.1->0.heap_encode_mb->0))
            } else {
                None
            };
        assert((|e: Compared<'_>| entry_ratio(e, Comparison::HeapEncode)) =~= ratio);
    }
}

/// A scaling row over several corpora counts the cells with a curve, and shows for
/// each padding mode the medians of the throughput of one thread and of the most
/// threads, and the median, the least and the greatest of the efficiencies that
/// have a base.
///
/// Beside another engine it holds one ratio for each cell that both have the point
/// of, with the same ids, that neither was found wrong in, and in which the
/// other's throughput is above zero: this engine's throughput over the other's.
pub proof fn law_scaling_row(
    entries: &Vec<Compared<'_>>,
    compare: bool,
    expected: usize,
    before: Vec<Cell>,
    after: Vec<Cell>,
)
    requires
        exists|row: &mut Vec<Cell>|
            *row == before && *final(row) == after && #[trigger] call_ensures(
                push_collapsed_cells,
                (entries, MeasureCommand::Scaling, compare, expected, row),
                (),
            ),
    ensures
        ({
            let n = before@.len() as int;
            &&& after@.len() == n + if compare {
                11int
            } else {
                7
            }
            &&& shows_part(
                after@[n],
                entries@.filter(|e: Compared<'_>| e.0.scaling is Some
                    && e.0.scaling->0@.len() > 0).len(),
                expected,
                compare,
            )
            &&& shows_median(
                after@[n + 1],
                entries@.filter_map(
                    |e: Compared<'_>| mbps_of(first_point(points_of(*e.0), "off"@)),
                ),
                1,
            )
            &&& shows_median(
                after@[n + 2],
                entries@.filter_map(
                    |e: Compared<'_>| mbps_of(widest_point(points_of(*e.0), "off"@)),
                ),
                1,
            )
            &&& shows_spread(
                after@[n + 3],
                entries@.filter_map(
                    |e: Compared<'_>|
                        if widest_point(points_of(*e.0), "off"@) is Some
                            && widest_point(points_of(*e.0), "off"@)->0.efficiency_pct.is_positive() {
                            Some(widest_point(points_of(*e.0), "off"@)->0.efficiency_pct)
                        } else {
                            None
                        },
                ),
            )
            &&& shows_median(
                after@[n + 4],
                entries@.filter_map(
                    |e: Compared<'_>| mbps_of(first_point(points_of(*e.0), "longest"@)),
                ),
                1,
            )
            &&& shows_median(
                after@[n + 5],
                entries@.filter_map(
                    |e: Compared<'_>| mbps_of(widest_point(points_of(*e.0), "longest"@)),
                ),
                1,
            )
            &&& shows_spread(
                after@[n + 6],
                entries@.filter_map(
                    |e: Compared<'_>|
                        if widest_point(points_of(*e.0), "longest"@) is Some
                            && widest_point(points_of(*e.0), "longest"@)->0.efficiency_pct.is_positive() {
                            Some(widest_point(points_of(*e.0), "longest"@)->0.efficiency_pct)
                        } else {
                            None
                        },
                ),
            )
            &&& compare ==> shows_ratios(
                after@[n + 7],
                entries@.filter_map(
                    |e: Compared<'_>|
                        if e.1 is Some && e.0.ids_hash@ == e.1->0.ids_hash@
                            && e.0.verified != Some(false) && e.1->0.verified != Some(false)
                            && first_point(points_of(*e.0), "off"@) is Some
                            && first_point(points_of(*e.1->0), "off"@) is Some
                            && first_point(points_of(*e.1->0), "off"@)->0.mbps.is_positive() {
                            Some((
                                first_point(points_of(*e.0), "off"@)->0.mbps,
                                first_point(points_of(*e.1->0), "off"@)->0.mbps,
                            ))
                        } else {
                            None
                        },
                ),
                expected,
            )
            &&& compare ==> shows_ratios(
                after@[n + 8],
                entries@.filter_map(
                    |e: Compared<'_>|
                        if e.1 is Some && e.0.ids_hash@ == e.1->0.ids_hash@
                            && e.0.verified != Some(false) && e.1->0.verified != Some(false)
                            && widest_point(points_of(*e.0), "off"@) is Some
                            && widest_point(points_of(*e.1->0), "off"@) is Some
                            && widest_point(points_of(*e.1->0), "off"@)->0.mbps.is_positive() {
                            Some((
                                widest_point(points_of(*e.0), "off"@)->0.mbps,
                                widest_point(points_of(*e.1->0), "off"@)->0.mbps,
                            ))
                        } else {
                            None
                        },
                ),
                expected,
            )
            &&& compare ==> shows_ratios(
                after@[n + 9],
                entries@.filter_map(
                    |e: Compared<'_>|
                        if e.1 is Some && e.0.ids_hash@ == e.1->0.ids_hash@
                            && e.0.verified != Some(false) && e.1->0.verified != Some(false)
                            && first_point(points_of(*e.0), "longest"@) is Some
                            && first_point(points_of(*e.1->0), "longest"@) is Some
                            && first_point(points_of(*e.1->0), "longest"@)->0.mbps.is_positive() {
                            Some((
                                first_point(points_of(*e.0), "longest"@)->0.mbps,
                                first_point(points_of(*e.1->0), "longest"@)->0.mbps,
                            ))
                        } else {
                            None
                        },
                ),
                expected,
            )
            &&& compare ==> shows_ratios(
                after@[n + 10],
                entries@.filter_map(
                    |e: Compared<'_>|
                        if e.1 is Some && e.0.ids_hash@ == e.1->0.ids_hash@
                            && e.0.verified != Some(false) && e.1->0.verified != Some(false)
                            && widest_point(points_of(*e.0), "longest"@) is Some
                            && widest_point(points_of(*e.1->0), "longest"@) is Some
                            && widest_point(points_of(*e.1->0), "longest"@)->0.mbps.is_positive() {
                            Some((
                                widest_point(points_of(*e.0), "longest"@)->0.mbps,
                                widest_point(points_of(*e.1->0), "longest"@)->0.mbps,
                            ))
                        } else {
                            None
                        },
                ),
                expected,
            )
        }),
{
    let list = entries@;
    assert(list.len() == entries.len());
    let all = plain(list);
    let cells = choose|cells: Seq<Shown>| #[trigger]
        are_collapsed_cells(all, MeasureCommand::Scaling, compare, expected, cells) && shown(after@)
            == shown(before@) + cells;
    lemma_extended(before@, after@, cells);
    let n = before@.len() as int;
    assert(after@[n + 0]@ == cells[0]);
    lemma_completed(list, MeasureCommand::Scaling);
    assert((|e: Compared<'_>| complete(*e.0, MeasureCommand::Scaling)) =~= (|e: Compared<'_>|
        e.0.scaling is Some && e.0.scaling->0@.len() > 0));
    assert(after@[n + 1]@ == cells[1]);
    lemma_figures(list, Figure::First(Padding::Off));
    let f1 = |e: Compared<'_>| mbps_of(first_point(points_of(*e.0), "off"@));
    assert((|e: Compared<'_>| figure_of(*e.0, Figure::First(Padding::Off))) =~= f1);
    lemma_filter_map_len(list, f1);
    lemma_shows_median(after@[n + 1], list.filter_map(f1), 1);
    assert(after@[n + 2]@ == cells[2]);
    lemma_figures(list, Figure::Widest(Padding::Off));
    let f2 = |e: Compared<'_>| mbps_of(widest_point(points_of(*e.0), "off"@));
    assert((|e: Compared<'_>| figure_of(*e.0, Figure::Widest(Padding::Off))) =~= f2);
    lemma_filter_map_len(list, f2);
    lemma_shows_median(after@[n + 2], list.filter_map(f2), 1);
    assert(after@[n + 3]@ == cells[3]);
    lemma_figures(list, Figure::Efficiency(Padding::Off));
    let f3 = |e: Compared<'_>|
        if widest_point(points_of(*e.0), "off"@) is Some
            && widest_point(points_of(*e.0), "off"@)->0.efficiency_pct.is_positive() {
            Some(widest_point(points_of(*e.0), "off"@)->0.efficiency_pct)
        } else {
            None
        };
    assert((|e: Compared<'_>| figure_of(*e.0, Figure::Efficiency(Padding::Off))) =~= f3);
    lemma_filter_map_len(list, f3);
    lemma_shows_spread(after@[n + 3], list.filter_map(f3));
    assert(after@[n + 4]@ == cells[4]);
    lemma_figures(list, Figure::First(Padding::Longest));
    let f4 = |e: Compared<'_>| mbps_of(first_point(points_of(*e.0), "longest"@));
    assert((|e: Compared<'_>| figure_of(*e.0, Figure::First(Padding::Longest))) =~= f4);
    lemma_filter_map_len(list, f4);
    lemma_shows_median(after@[n + 4], list.filter_map(f4), 1);
    assert(after@[n + 5]@ == cells[5]);
    lemma_figures(list, Figure::Widest(Padding::Longest));
    let f5 = |e: Compared<'_>| mbps_of(widest_point(points_of(*e.0), "longest"@));
    assert((|e: Compared<'_>| figure_of(*e.0, Figure::Widest(Padding::Longest))) =~= f5);
    lemma_filter_map_len(list, f5);
    lemma_shows_median(after@[n + 5], list.filter_map(f5), 1);
    assert(after@[n + 6]@ == cells[6]);
    lemma_figures(list, Figure::Efficiency(Padding::Longest));
    let f6 = |e: Compared<'_>|
        if widest_point(points_of(*e.0), "longest"@) is Some
            && widest_point(points_of(*e.0), "longest"@)->0.efficiency_pct.is_positive() {
            Some(widest_point(points_of(*e.0), "longest"@)->0.efficiency_pct)
        } else {
            None
        };
    assert((|e: Compared<'_>| figure_of(*e.0, Figure::Efficiency(Padding::Longest))) =~= f6);
    lemma_filter_map_len(list, f6);
    lemma_shows_spread(after@[n + 6], list.filter_map(f6));
    if compare {
        assert(after@[n + 7]@ == cells[7]);
        lemma_ratios(list, Comparison::First(Padding::Off));
        let ratio = |e: Compared<'_>|
            if e.1 is Some && e.0.ids_hash@ == e.1->0.ids_hash@ && e.0.verified != Some(false)
                && e.1->0.verified != Some(false) && first_point(points_of(*e.0), "off"@) is Some
                && first_point(points_of(*e.1->0), "off"@) is Some
                && first_point(points_of(*e.1->0), "off"@)->0.mbps.is_positive() {
                Some((
                    first_point(points_of(*e.0), "off"@)->0.mbps,
                    first_point(points_of(*e.1->0), "off"@)->0.mbps,
                ))
            } else {
                None
            };
        assert((|e: Compared<'_>| entry_ratio(e, Comparison::First(Padding::Off))) =~= ratio);
    }
    if compare {
        assert(after@[n + 8]@ == cells[8]);
        lemma_ratios(list, Comparison::Widest(Padding::Off));
        let ratio = |e: Compared<'_>|
            if e.1 is Some && e.0.ids_hash@ == e.1->0.ids_hash@ && e.0.verified != Some(false)
                && e.1->0.verified != Some(false) && widest_point(points_of(*e.0), "off"@) is Some
                && widest_point(points_of(*e.1->0), "off"@) is Some
                && widest_point(points_of(*e.1->0), "off"@)->0.mbps.is_positive() {
                Some((
                    widest_point(points_of(*e.0), "off"@)->0.mbps,
                    widest_point(points_of(*e.1->0), "off"@)->0.mbps,
                ))
            } else {
                None
            };
        assert((|e: Compared<'_>| entry_ratio(e, Comparison::Widest(Padding::Off))) =~= ratio);
    }
    if compare {
        assert(after@[n + 9]@ == cells[9]);
        lemma_ratios(list, Comparison::First(Padding::Longest));
        let ratio = |e: Compared<'_>|
            if e.1 is Some && e.0.ids_hash@ == e.1->0.ids_hash@ && e.0.verified != Some(false)
                && e.1->0.verified != Some(false)
                && first_point(points_of(*e.0), "longest"@) is Some
                && first_point(points_of(*e.1->0), "longest"@) is Some
                && first_point(points_of(*e.1->0), "longest"@)->0.mbps.is_positive() {
                Some((
                    first_point(points_of(*e.0), "longest"@)->0.mbps,
                    first_point(points_of(*e.1->0), "longest"@)->0.mbps,
                ))
            } else {
                None
            };
        assert((|e: Compared<'_>| entry_ratio(e, Comparison::First(Padding::Longest))) =~= ratio);
    }
    if compare {
        assert(after@[n + 10]@ == cells[10]);
        lemma_ratios(list, Comparison::Widest(Padding::Longest));
        let ratio = |e: Compared<'_>|
            if e.1 is Some && e.0.ids_hash@ == e.1->0.ids_hash@ && e.0.verified != Some(false)
                && e.1->0.verified != Some(false)
                && widest_point(points_of(*e.0), "longest"@) is Some
                && widest_point(points_of(*e.1->0), "longest"@) is Some
                && widest_point(points_of(*e.1->0), "longest"@)->0.mbps.is_positive() {
                Some((
                    widest_point(points_of(*e.0), "longest"@)->0.mbps,
                    widest_point(points_of(*e.1->0), "longest"@)->0.mbps,
                ))
            } else {
                None
            };
        assert((|e: Compared<'_>| entry_ratio(e, Comparison::Widest(Padding::Longest))) =~= ratio);
    }
}

/// Of two engines that are compared in both directions, the one's ratio is the
/// other's turned round; and the one with more throughput, less latency or more
/// memory is the one with the greater number on top.
pub proof fn law_better_is_above_one(
    r: EngineResult,
    o: EngineResult,
    by: Comparison,
    top: Real,
    bottom: Real,
)
    requires
        ratio_of(r, o, by) == Some((top, bottom)),
    ensures
        bottom.is_positive(),
        ratio_of(o, r, by) is None || ratio_of(o, r, by) == Some((bottom, top)),
        by is Encode ==> (bottom.place() < top.place() <==> o.mbps.place() < r.mbps.place()),
        by is Decode ==> (bottom.place() < top.place() <==> o.decode_mbps->0.place()
            < r.decode_mbps->0.place()),
        by is P50 ==> (bottom.place() < top.place() <==> r.latency_p50_us->0.place()
            < o.latency_p50_us->0.place()),
        by is P99 ==> (bottom.place() < top.place() <==> r.latency_p99_us->0.place()
            < o.latency_p99_us->0.place()),
        by is HeapLoad ==> (bottom.place() < top.place() <==> o.heap_load_mb->0.place()
            < r.heap_load_mb->0.place()),
        by is HeapEncode ==> (bottom.place() < top.place() <==> o.heap_encode_mb->0.place()
            < r.heap_encode_mb->0.place()),
{
}

}
