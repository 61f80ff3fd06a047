//! The tables of a measurement: which cell says what.
//!
//! A cell holds what is shown, not how: numbers stay as they were measured, and
//! a ratio is a pair. A cell without such a number has its text here; the others
//! are the caller's to write.

use crate::cli::MeasureCommand;
use crate::layout::coverage_text;
use crate::number::Real;
use crate::report::{text_of, EngineResult, ScalePoint};
use crate::scan::contents;
use crate::stats::{the_median, Middle};
use crate::text::{count_text, decimal, same};
use vstd::prelude::*;
use vstd::string::StringExecFns;

verus! {

// ---------------------------------------------------------------------------
// Cells
// ---------------------------------------------------------------------------

/// One cell of a table.
pub enum Cell {
    /// Nothing to show.
    Dash,
    /// A text as it is.
    Text(String),
    /// A number of things.
    Count(usize),
    /// The least and the greatest of several numbers of things.
    Range(usize, usize),
    /// A number with so many decimals.
    Fixed(Real, usize),
    /// The median of several numbers, with so many decimals.
    MedianFixed(Middle<Real>, usize),
    /// How many of the expected cells were measured; `said` where the word is
    /// spelled out.
    Part { measured: usize, expected: usize, said: bool },
    /// How many times the second number the first one is.
    Ratio(Real, Real),
    /// The median of such ratios, over the cells that were expected.
    Ratios(Vec<(Real, Real)>, usize),
    /// Why the engine did not run.
    Unsupported(String),
    Verified,
    Unverified,
    IdMismatch,
    TextMismatch,
    ComparatorUnsupported,
    ComparatorMissing,
    Fine,
    NoNativePadding,
    /// The efficiency at a width, and who made the threads.
    Efficiency(Real, usize, String),
    /// A width without a one-thread point to compare with.
    NoBaseline(usize, String),
    /// The median efficiency over corpora, with the least and the greatest.
    EfficiencyRange(Middle<Real>, Real, Real),
}

/// A cell as a value of the contracts.
pub ghost enum Shown {
    Plain(Cell),
    Ratios(Seq<(Real, Real)>, usize),
}

impl View for Cell {
    type V = Shown;

    open spec fn view(&self) -> Shown {
        match *self {
            Cell::Ratios(pairs, expected) => Shown::Ratios(pairs@, expected),
            _ => Shown::Plain(*self),
        }
    }
}

/// The cells of a row.
pub open spec fn shown(row: Seq<Cell>) -> Seq<Shown> {
    row.map_values(|c: Cell| c@)
}

/// A ratio, where both numbers are finite and there is something to divide by.
pub open spec fn ratio_cell(numerator: Real, denominator: Real) -> Cell {
    if numerator.is_finite() && denominator.is_finite() && denominator.is_positive() {
        Cell::Ratio(numerator, denominator)
    } else {
        Cell::Dash
    }
}

/// `ratio_cell`, computed.
pub fn multiplier(numerator: Real, denominator: Real) -> (c: Cell)
    ensures
        c == ratio_cell(numerator, denominator),
        c@ == Shown::Plain(ratio_cell(numerator, denominator)),
{
    if numerator.finite() && denominator.finite() && denominator.positive() {
        Cell::Ratio(numerator, denominator)
    } else {
        Cell::Dash
    }
}

/// A number, if there is one.
pub open spec fn fixed_cell(value: Option<Real>, decimals: usize) -> Cell {
    match value {
        Some(v) => Cell::Fixed(v, decimals),
        None => Cell::Dash,
    }
}

fn fixed(value: Option<Real>, decimals: usize) -> (c: Cell)
    ensures
        c == fixed_cell(value, decimals),
{
    match value {
        Some(v) => Cell::Fixed(v, decimals),
        None => Cell::Dash,
    }
}

/// A count, if there is one.
pub open spec fn count_cell(value: Option<usize>) -> Cell {
    match value {
        Some(v) => Cell::Count(v),
        None => Cell::Dash,
    }
}

fn count(value: Option<usize>) -> (c: Cell)
    ensures
        c == count_cell(value),
{
    match value {
        Some(v) => Cell::Count(v),
        None => Cell::Dash,
    }
}

/// The median of a list, if it has one.
pub open spec fn median_cell(values: Seq<Real>, decimals: usize) -> Cell {
    if values.len() == 0 {
        Cell::Dash
    } else {
        Cell::MedianFixed(the_median(values), decimals)
    }
}

// ---------------------------------------------------------------------------
// Points of a curve
// ---------------------------------------------------------------------------

/// The one-thread point of one padding mode's curve.
pub open spec fn first_point(points: Seq<ScalePoint>, padding: Seq<char>) -> Option<ScalePoint>
    decreases points.len(),
{
    if points.len() == 0 {
        None
    } else if points[0].padding@ == padding && points[0].threads == 1 {
        Some(points[0])
    } else {
        first_point(points.drop_first(), padding)
    }
}

/// The widest point of one padding mode's curve, the last of equals.
pub open spec fn widest_point(points: Seq<ScalePoint>, padding: Seq<char>) -> Option<ScalePoint>
    decreases points.len(),
{
    if points.len() == 0 {
        None
    } else {
        let best = widest_point(points.drop_last(), padding);
        let p = points.last();
        if p.padding@ == padding && (best is None || best->0.threads <= p.threads) {
            Some(p)
        } else {
            best
        }
    }
}

/// The points of a result's curves.
pub open spec fn points_of(r: EngineResult) -> Seq<ScalePoint> {
    match r.scaling {
        Some(points) => points@,
        None => Seq::empty(),
    }
}

/// A point's place in its padding mode: never of another one.
pub proof fn law_points_stay_in_their_mode(points: Seq<ScalePoint>, padding: Seq<char>)
    ensures
        first_point(points, padding) matches Some(p) ==> p.padding@ == padding && p.threads == 1
            && points.contains(p),
        widest_point(points, padding) matches Some(p) ==> p.padding@ == padding && points.contains(p)
            && forall|i: int|
            0 <= i < points.len() && (#[trigger] points[i]).padding@ == padding
                ==> points[i].threads <= p.threads,
        widest_point(points, padding) is None ==> forall|i: int|
            0 <= i < points.len() ==> (#[trigger] points[i]).padding@ != padding,
    decreases points.len(),
{
    lemma_first_point(points, padding);
    lemma_widest_point(points, padding);
}

proof fn lemma_first_point(points: Seq<ScalePoint>, padding: Seq<char>)
    ensures
        first_point(points, padding) matches Some(p) ==> p.padding@ == padding && p.threads == 1
            && points.contains(p),
    decreases points.len(),
{
    if points.len() > 0 {
        lemma_first_point(points.drop_first(), padding);
        if let Some(p) = first_point(points.drop_first(), padding) {
            let k = choose|k: int|
                0 <= k < points.drop_first().len() && points.drop_first()[k] == p;
            assert(points[k + 1] == p);
        }
        assert(points.contains(points[0]));
    }
}

proof fn lemma_widest_point(points: Seq<ScalePoint>, padding: Seq<char>)
    ensures
        widest_point(points, padding) matches Some(p) ==> p.padding@ == padding && points.contains(p)
            && forall|i: int|
            0 <= i < points.len() && (#[trigger] points[i]).padding@ == padding
                ==> points[i].threads <= p.threads,
        widest_point(points, padding) is None ==> forall|i: int|
            0 <= i < points.len() ==> (#[trigger] points[i]).padding@ != padding,
    decreases points.len(),
{
    if points.len() > 0 {
        let less = points.drop_last();
        lemma_widest_point(less, padding);
        assert forall|i: int| 0 <= i < less.len() implies less[i] == #[trigger] points[i] by {}
        if let Some(p) = widest_point(less, padding) {
            let k = choose|k: int| 0 <= k < less.len() && less[k] == p;
            assert(points[k] == p);
        }
        assert(points[points.len() - 1] == points.last());
        assert(points.contains(points.last()));
    }
}

/// `first_point` of a result.
pub fn scaling_first<'a>(result: &'a EngineResult, padding: &str) -> (r: Option<&'a ScalePoint>)
    ensures
        r is Some <==> first_point(points_of(*result), padding@) is Some,
        r is Some ==> *r->0 == first_point(points_of(*result), padding@)->0,
{
    match &result.scaling {
        Some(points) => {
            let mut i: usize = 0;
            assert(points@.skip(0) =~= points@);
            while i < points.len()
                invariant
                    i <= points@.len(),
                    points_of(*result) == points@,
                    first_point(points@, padding@) == first_point(points@.skip(i as int), padding@),
                decreases points@.len() - i,
            {
                if points[i].threads == 1 && same(points[i].padding.as_str(), padding) {
                    return Some(&points[i]);
                }
                assert(points@.skip(i as int).drop_first() =~= points@.skip(i + 1));
                i = i + 1;
            }
            None
        },
        None => None,
    }
}

/// `widest_point` of a result.
pub fn scaling_last<'a>(result: &'a EngineResult, padding: &str) -> (r: Option<&'a ScalePoint>)
    ensures
        r is Some <==> widest_point(points_of(*result), padding@) is Some,
        r is Some ==> *r->0 == widest_point(points_of(*result), padding@)->0,
{
    match &result.scaling {
        Some(points) => {
            let mut best: Option<usize> = None;
            let mut i: usize = 0;
            assert(points@.take(0) =~= Seq::empty());
            while i < points.len()
                invariant
                    i <= points@.len(),
                    best is None <==> widest_point(points@.take(i as int), padding@) is None,
                    best matches Some(b) ==> b < i && points@[b as int] == widest_point(
                        points@.take(i as int),
                        padding@,
                    )->0,
                decreases points@.len() - i,
            {
                assert(points@.take(i + 1).drop_last() =~= points@.take(i as int));
                if same(points[i].padding.as_str(), padding) {
                    let better = match best {
                        Some(b) => points[b].threads <= points[i].threads,
                        None => true,
                    };
                    if better {
                        best = Some(i);
                    }
                }
                i = i + 1;
            }
            assert(points@.take(points@.len() as int) =~= points@);
            match best {
                Some(b) => Some(&points[b]),
                None => None,
            }
        },
        None => None,
    }
}

// ---------------------------------------------------------------------------
// One cell at a time
// ---------------------------------------------------------------------------

/// What a check against the reference shows.
pub open spec fn check_cell(
    why: Option<String>,
    verified: Option<bool>,
    mismatch: Cell,
) -> Cell {
    match why {
        Some(reason) => Cell::Unsupported(reason),
        None => match verified {
            Some(true) => Cell::Verified,
            Some(false) => mismatch,
            None => Cell::Unverified,
        },
    }
}

fn check(why: &Option<String>, verified: Option<bool>, mismatch: Cell) -> (c: Cell)
    ensures
        c == check_cell(*why, verified, mismatch),
{
    match why {
        Some(reason) => Cell::Unsupported(reason.clone()),
        None => match verified {
            Some(true) => Cell::Verified,
            Some(false) => mismatch,
            None => Cell::Unverified,
        },
    }
}

/// Whether the engine ran, for measurements that have no reference.
pub open spec fn ran_cell(why: Option<String>) -> Cell {
    match why {
        Some(reason) => Cell::Unsupported(reason),
        None => Cell::Fine,
    }
}

fn ran(why: &Option<String>) -> (c: Cell)
    ensures
        c == ran_cell(*why),
{
    match why {
        Some(reason) => Cell::Unsupported(reason.clone()),
        None => Cell::Fine,
    }
}

/// A comparison of two numbers that may be missing.
pub open spec fn pair_cell(numerator: Option<Real>, denominator: Option<Real>) -> Cell {
    match (numerator, denominator) {
        (Some(n), Some(d)) => ratio_cell(n, d),
        _ => Cell::ComparatorUnsupported,
    }
}

fn pair(numerator: Option<Real>, denominator: Option<Real>) -> (c: Cell)
    ensures
        c == pair_cell(numerator, denominator),
{
    match (numerator, denominator) {
        (Some(n), Some(d)) => multiplier(n, d),
        _ => Cell::ComparatorUnsupported,
    }
}

/// The throughput of a point, if there is one.
pub open spec fn mbps_of(p: Option<ScalePoint>) -> Option<Real> {
    match p {
        Some(p) => Some(p.mbps),
        None => None,
    }
}

/// Why the engine produced no decode number.
pub open spec fn decode_reason(r: EngineResult) -> Option<String> {
    if r.unsupported is Some {
        r.unsupported
    } else {
        r.decode_unsupported
    }
}

/// Whether the engine declared a padding mode unsupported.
pub open spec fn cannot_pad(r: EngineResult, padding: Seq<char>) -> bool {
    r.padding_unsupported is Some && contents(r.padding_unsupported->0@).contains(padding)
}

fn lacks_padding(r: &EngineResult, padding: &str) -> (b: bool)
    ensures
        b == cannot_pad(*r, padding@),
{
    match &r.padding_unsupported {
        Some(modes) => {
            let mut i: usize = 0;
            while i < modes.len()
                invariant
                    i <= modes@.len(),
                    r.padding_unsupported == Some(*modes),
                    forall|k: int| 0 <= k < i ==> (#[trigger] contents(modes@)[k]) != padding@,
                decreases modes@.len() - i,
            {
                if same(modes[i].as_str(), padding) {
                    assert(contents(modes@)[i as int] == padding@);
                    return true;
                }
                i = i + 1;
            }
            false
        },
        None => false,
    }
}

/// The three cells of one padding mode: the one-thread throughput, the widest
/// one, and how it scaled.
pub open spec fn curve_cells(r: EngineResult, padding: Seq<char>) -> Seq<Cell> {
    let last = widest_point(points_of(r), padding);
    seq![
        fixed_cell(mbps_of(first_point(points_of(r), padding)), 1),
        fixed_cell(mbps_of(last), 1),
        match last {
            Some(p) => if p.efficiency_pct.is_positive() {
                Cell::Efficiency(p.efficiency_pct, p.threads, p.parallelism)
            } else {
                Cell::NoBaseline(p.threads, p.parallelism)
            },
            None => if cannot_pad(r, padding) {
                Cell::NoNativePadding
            } else {
                Cell::Dash
            },
        },
    ]
}

/// The two cells that compare one padding mode with the other engine's.
pub open spec fn curve_comparison(
    r: EngineResult,
    other: Option<EngineResult>,
    padding: Seq<char>,
) -> Seq<Cell> {
    if r.unsupported is Some {
        seq![Cell::Unsupported(r.unsupported->0), Cell::Dash]
    } else if other is Some && r.ids_hash@ != other->0.ids_hash@ {
        seq![Cell::IdMismatch, Cell::IdMismatch]
    } else {
        seq![
            pair_cell(
                mbps_of(first_point(points_of(r), padding)),
                match other {
                    Some(o) => mbps_of(first_point(points_of(o), padding)),
                    None => None,
                },
            ),
            pair_cell(
                mbps_of(widest_point(points_of(r), padding)),
                match other {
                    Some(o) => mbps_of(widest_point(points_of(o), padding)),
                    None => None,
                },
            ),
        ]
    }
}

/// What an encode result shows beside the other engine's.
pub open spec fn encode_comparison(r: EngineResult, other: Option<EngineResult>) -> Cell {
    if r.unsupported is Some {
        Cell::Unsupported(r.unsupported->0)
    } else {
        match other {
            Some(o) => if o.unsupported is Some {
                Cell::ComparatorUnsupported
            } else if r.ids_hash@ != o.ids_hash@ {
                Cell::IdMismatch
            } else {
                ratio_cell(r.mbps, o.mbps)
            },
            None => Cell::ComparatorMissing,
        }
    }
}

/// What a decode result shows beside the other engine's. A result that was
/// neither measured nor refused has nothing to compare.
pub open spec fn decode_comparison(r: EngineResult, other: Option<EngineResult>) -> Cell {
    if decode_reason(r) is Some {
        Cell::Unsupported(decode_reason(r)->0)
    } else {
        match other {
            Some(o) => if o.decode_mbps is None {
                Cell::ComparatorUnsupported
            } else if text_of(r.decode_text_hash) != text_of(o.decode_text_hash) {
                Cell::TextMismatch
            } else {
                pair_cell(r.decode_mbps, o.decode_mbps)
            },
            None => Cell::ComparatorMissing,
        }
    }
}

/// What a latency result shows beside the other engine's: how many times
/// faster it is.
pub open spec fn latency_comparison(r: EngineResult, other: Option<EngineResult>) -> Seq<Cell> {
    if r.unsupported is Some {
        seq![Cell::Unsupported(r.unsupported->0), Cell::Dash]
    } else {
        match other {
            Some(o) => seq![
                pair_cell(
                    if r.latency_p50_us is Some {
                        o.latency_p50_us
                    } else {
                        None
                    },
                    r.latency_p50_us,
                ),
                pair_cell(
                    if r.latency_p99_us is Some {
                        o.latency_p99_us
                    } else {
                        None
                    },
                    r.latency_p99_us,
                ),
            ],
            None => seq![Cell::ComparatorMissing, Cell::Dash],
        }
    }
}

/// What a footprint shows beside the other engine's.
pub open spec fn heap_comparison(
    r: EngineResult,
    other: Option<EngineResult>,
    loaded: bool,
) -> Cell {
    if r.unsupported is Some {
        Cell::Unsupported(r.unsupported->0)
    } else {
        let target = if loaded {
            r.heap_load_mb
        } else {
            r.heap_encode_mb
        };
        let baseline = match other {
            Some(o) => if loaded {
                o.heap_load_mb
            } else {
                o.heap_encode_mb
            },
            None => None,
        };
        if target is Some && baseline is Some && baseline->0.is_positive() {
            ratio_cell(target->0, baseline->0)
        } else {
            Cell::ComparatorUnsupported
        }
    }
}

/// The cells of one result in the table of a single corpus, after its labels.
pub open spec fn result_cells(
    r: EngineResult,
    other: Option<EngineResult>,
    measurement: MeasureCommand,
    compare: bool,
) -> Seq<Cell> {
    match measurement {
        MeasureCommand::Encode => seq![
            if r.unsupported is Some {
                Cell::Dash
            } else {
                Cell::Fixed(r.mbps, 1)
            },
            if r.unsupported is Some {
                Cell::Dash
            } else {
                Cell::Fixed(r.ns_per_byte, 2)
            },
            if r.unsupported is Some {
                Cell::Dash
            } else {
                Cell::Count(r.total_tokens_produced)
            },
            if compare {
                encode_comparison(r, other)
            } else {
                check_cell(r.unsupported, r.verified, Cell::IdMismatch)
            },
        ],
        MeasureCommand::Decode => seq![
            fixed_cell(r.decode_mbps, 1),
            fixed_cell(r.decode_ns_per_token, 1),
            if compare {
                decode_comparison(r, other)
            } else {
                check_cell(decode_reason(r), r.decode_verified, Cell::TextMismatch)
            },
        ],
        MeasureCommand::Latency => seq![
            fixed_cell(r.latency_p50_us, 2),
            fixed_cell(r.latency_p99_us, 2),
            count_cell(r.latency_samples),
        ] + if compare {
            latency_comparison(r, other)
        } else {
            seq![ran_cell(r.unsupported)]
        },
        MeasureCommand::Scaling => curve_cells(r, "off"@) + curve_cells(r, "longest"@)
            + if compare {
            curve_comparison(r, other, "off"@) + curve_comparison(r, other, "longest"@)
        } else {
            seq![check_cell(r.unsupported, r.verified, Cell::IdMismatch)]
        },
        MeasureCommand::Memory => seq![
            fixed_cell(r.heap_load_mb, 1),
            fixed_cell(r.heap_encode_mb, 1),
            count_cell(r.memory_threads),
            match r.memory_parallelism {
                Some(p) => Cell::Text(p),
                None => Cell::Dash,
            },
        ] + if compare {
            seq![heap_comparison(r, other, true), heap_comparison(r, other, false)]
        } else {
            seq![ran_cell(r.unsupported)]
        },
    }
}

fn curve(r: &EngineResult, padding: &str, row: &mut Vec<Cell>)
    ensures
        final(row)@ == old(row)@ + curve_cells(*r, padding@),
{
    let first = scaling_first(r, padding);
    let last = scaling_last(r, padding);
    row.push(
        match first {
            Some(p) => Cell::Fixed(p.mbps, 1),
            None => Cell::Dash,
        },
    );
    row.push(
        match last {
            Some(p) => Cell::Fixed(p.mbps, 1),
            None => Cell::Dash,
        },
    );
    row.push(
        match last {
            Some(p) => if p.efficiency_pct.positive() {
                Cell::Efficiency(p.efficiency_pct, p.threads, p.parallelism.clone())
            } else {
                Cell::NoBaseline(p.threads, p.parallelism.clone())
            },
            None => if lacks_padding(r, padding) {
                Cell::NoNativePadding
            } else {
                Cell::Dash
            },
        },
    );
    assert(row@ =~= old(row)@ + curve_cells(*r, padding@));
}

fn first_mbps(r: &EngineResult, padding: &str) -> (m: Option<Real>)
    ensures
        m == mbps_of(first_point(points_of(*r), padding@)),
{
    match scaling_first(r, padding) {
        Some(p) => Some(p.mbps),
        None => None,
    }
}

fn last_mbps(r: &EngineResult, padding: &str) -> (m: Option<Real>)
    ensures
        m == mbps_of(widest_point(points_of(*r), padding@)),
{
    match scaling_last(r, padding) {
        Some(p) => Some(p.mbps),
        None => None,
    }
}

/// The value behind an optional reference.
pub open spec fn behind(other: Option<&EngineResult>) -> Option<EngineResult> {
    match other {
        Some(o) => Some(*o),
        None => None,
    }
}

fn compare_curves(
    r: &EngineResult,
    other: Option<&EngineResult>,
    padding: &str,
    row: &mut Vec<Cell>,
)
    ensures
        final(row)@ == old(row)@ + curve_comparison(*r, behind(other), padding@),
{
    if let Some(why) = &r.unsupported {
        row.push(Cell::Unsupported(why.clone()));
        row.push(Cell::Dash);
        assert(row@ =~= old(row)@ + curve_comparison(*r, behind(other), padding@));
        return;
    }
    let differs = match other {
        Some(o) => !same(r.ids_hash.as_str(), o.ids_hash.as_str()),
        None => false,
    };
    if differs {
        row.push(Cell::IdMismatch);
        row.push(Cell::IdMismatch);
    } else {
        let first = match other {
            Some(o) => first_mbps(o, padding),
            None => None,
        };
        let last = match other {
            Some(o) => last_mbps(o, padding),
            None => None,
        };
        row.push(pair(first_mbps(r, padding), first));
        row.push(pair(last_mbps(r, padding), last));
    }
    assert(row@ =~= old(row)@ + curve_comparison(*r, behind(other), padding@));
}

fn compare_encode(r: &EngineResult, other: Option<&EngineResult>) -> (c: Cell)
    ensures
        c == encode_comparison(*r, behind(other)),
{
    match &r.unsupported {
        Some(why) => Cell::Unsupported(why.clone()),
        None => match other {
            Some(o) => if o.unsupported.is_some() {
                Cell::ComparatorUnsupported
            } else if !same(r.ids_hash.as_str(), o.ids_hash.as_str()) {
                Cell::IdMismatch
            } else {
                multiplier(r.mbps, o.mbps)
            },
            None => Cell::ComparatorMissing,
        },
    }
}

fn reason_of(r: &EngineResult) -> (why: Option<String>)
    ensures
        why == decode_reason(*r),
{
    match &r.unsupported {
        Some(why) => Some(why.clone()),
        None => match &r.decode_unsupported {
            Some(why) => Some(why.clone()),
            None => None,
        },
    }
}

/// Whether two optional texts are the same.
pub(crate) fn same_option(a: &Option<String>, b: &Option<String>) -> (r: bool)
    ensures
        r == (text_of(*a) == text_of(*b)),
{
    match (a, b) {
        (Some(x), Some(y)) => same(x.as_str(), y.as_str()),
        (None, None) => true,
        _ => false,
    }
}

fn compare_decode(r: &EngineResult, other: Option<&EngineResult>) -> (c: Cell)
    ensures
        c == decode_comparison(*r, behind(other)),
{
    match reason_of(r) {
        Some(why) => Cell::Unsupported(why),
        None => match other {
            Some(o) => if o.decode_mbps.is_none() {
                Cell::ComparatorUnsupported
            } else if !same_option(&r.decode_text_hash, &o.decode_text_hash) {
                Cell::TextMismatch
            } else {
                pair(r.decode_mbps, o.decode_mbps)
            },
            None => Cell::ComparatorMissing,
        },
    }
}

fn compare_latency(r: &EngineResult, other: Option<&EngineResult>, row: &mut Vec<Cell>)
    ensures
        final(row)@ == old(row)@ + latency_comparison(*r, behind(other)),
{
    match &r.unsupported {
        Some(why) => {
            row.push(Cell::Unsupported(why.clone()));
            row.push(Cell::Dash);
        },
        None => match other {
            Some(o) => {
                row.push(
                    pair(
                        if r.latency_p50_us.is_some() {
                            o.latency_p50_us
                        } else {
                            None
                        },
                        r.latency_p50_us,
                    ),
                );
                row.push(
                    pair(
                        if r.latency_p99_us.is_some() {
                            o.latency_p99_us
                        } else {
                            None
                        },
                        r.latency_p99_us,
                    ),
                );
            },
            None => {
                row.push(Cell::ComparatorMissing);
                row.push(Cell::Dash);
            },
        },
    }
    assert(row@ =~= old(row)@ + latency_comparison(*r, behind(other)));
}

fn compare_heap(r: &EngineResult, other: Option<&EngineResult>, loaded: bool) -> (c: Cell)
    ensures
        c == heap_comparison(*r, behind(other), loaded),
{
    if let Some(why) = &r.unsupported {
        return Cell::Unsupported(why.clone());
    }
    let target = if loaded {
        r.heap_load_mb
    } else {
        r.heap_encode_mb
    };
    let baseline = match other {
        Some(o) => if loaded {
            o.heap_load_mb
        } else {
            o.heap_encode_mb
        },
        None => None,
    };
    match (target, baseline) {
        (Some(t), Some(b)) => if b.positive() {
            multiplier(t, b)
        } else {
            Cell::ComparatorUnsupported
        },
        _ => Cell::ComparatorUnsupported,
    }
}

/// Adds the cells of one result to a row.
pub fn push_result_cells(
    r: &EngineResult,
    other: Option<&EngineResult>,
    measurement: MeasureCommand,
    compare: bool,
    row: &mut Vec<Cell>,
)
    ensures
        final(row)@ == old(row)@ + result_cells(*r, behind(other), measurement, compare),
{
    match measurement {
        MeasureCommand::Encode => {
            let ran = r.unsupported.is_none();
            row.push(
                if ran {
                    Cell::Fixed(r.mbps, 1)
                } else {
                    Cell::Dash
                },
            );
            row.push(
                if ran {
                    Cell::Fixed(r.ns_per_byte, 2)
                } else {
                    Cell::Dash
                },
            );
            row.push(
                if ran {
                    Cell::Count(r.total_tokens_produced)
                } else {
                    Cell::Dash
                },
            );
            row.push(
                if compare {
                    compare_encode(r, other)
                } else {
                    check(&r.unsupported, r.verified, Cell::IdMismatch)
                },
            );
        },
        MeasureCommand::Decode => {
            row.push(fixed(r.decode_mbps, 1));
            row.push(fixed(r.decode_ns_per_token, 1));
            row.push(
                if compare {
                    compare_decode(r, other)
                } else {
                    let why = reason_of(r);
                    check(&why, r.decode_verified, Cell::TextMismatch)
                },
            );
        },
        MeasureCommand::Latency => {
            row.push(fixed(r.latency_p50_us, 2));
            row.push(fixed(r.latency_p99_us, 2));
            row.push(count(r.latency_samples));
            if compare {
                compare_latency(r, other, row);
            } else {
                row.push(ran(&r.unsupported));
            }
        },
        MeasureCommand::Scaling => {
            curve(r, "off", row);
            curve(r, "longest", row);
            if compare {
                compare_curves(r, other, "off", row);
                compare_curves(r, other, "longest", row);
            } else {
                row.push(check(&r.unsupported, r.verified, Cell::IdMismatch));
            }
        },
        MeasureCommand::Memory => {
            row.push(fixed(r.heap_load_mb, 1));
            row.push(fixed(r.heap_encode_mb, 1));
            row.push(count(r.memory_threads));
            row.push(
                match &r.memory_parallelism {
                    Some(p) => Cell::Text(p.clone()),
                    None => Cell::Dash,
                },
            );
            if compare {
                row.push(compare_heap(r, other, true));
                row.push(compare_heap(r, other, false));
            } else {
                row.push(ran(&r.unsupported));
            }
        },
    }
    assert(row@ =~= old(row)@ + result_cells(*r, behind(other), measurement, compare));
}

/// The one-thread point of a curve is the first of its padding mode with one
/// thread, and there is none only where the mode has no such point.
pub proof fn law_first_point(result: &EngineResult, padding: &str, r: Option<&ScalePoint>)
    requires
        call_ensures(scaling_first, (result, padding), r),
    ensures
        result.scaling is None ==> r is None,
        result.scaling matches Some(points) ==> {
            &&& r is None ==> forall|k: int|
                0 <= k < points@.len() ==> (#[trigger] points@[k]).padding@ != padding@
                    || points@[k].threads != 1
            &&& r matches Some(p) ==> exists|k: int|
                0 <= k < points@.len() && #[trigger] points@[k] == *p && p.padding@ == padding@
                    && p.threads == 1 && forall|i: int|
                    0 <= i < k ==> (#[trigger] points@[i]).padding@ != padding@
                        || points@[i].threads != 1
        },
{
    if let Some(points) = result.scaling {
        lemma_first_place(points@, padding@);
    }
}

proof fn lemma_first_place(points: Seq<ScalePoint>, padding: Seq<char>)
    ensures
        match first_point(points, padding) {
            Some(p) => exists|k: int|
                0 <= k < points.len() && #[trigger] points[k] == p && p.padding@ == padding
                    && p.threads == 1 && forall|i: int|
                    0 <= i < k ==> (#[trigger] points[i]).padding@ != padding || points[i].threads
                        != 1,
            None => forall|k: int|
                0 <= k < points.len() ==> (#[trigger] points[k]).padding@ != padding
                    || points[k].threads != 1,
        },
    decreases points.len(),
{
    if points.len() > 0 && !(points[0].padding@ == padding && points[0].threads == 1) {
        let rest = points.drop_first();
        lemma_first_place(rest, padding);
        match first_point(points, padding) {
            Some(p) => {
                let k = choose|k: int|
                    0 <= k < rest.len() && #[trigger] rest[k] == p && p.padding@ == padding
                        && p.threads == 1 && forall|i: int|
                        0 <= i < k ==> (#[trigger] rest[i]).padding@ != padding || rest[i].threads
                            != 1;
                assert(points[k + 1] == p);
                assert forall|i: int| 0 <= i < k + 1 implies (#[trigger] points[i]).padding@
                    != padding || points[i].threads != 1 by {
                    if i > 0 {
                        assert(rest[i - 1] == points[i]);
                    }
                }
            },
            None => {
                assert forall|i: int| 0 <= i < points.len() implies (#[trigger] points[i]).padding@
                    != padding || points[i].threads != 1 by {
                    if i > 0 {
                        assert(rest[i - 1] == points[i]);
                    }
                }
            },
        }
    } else if points.len() > 0 {
        assert(points[0].threads == 1);
    }
}

/// The widest point of a curve is the last of those of its padding mode that no
/// other of the mode has more threads than.
pub proof fn law_widest_point(result: &EngineResult, padding: &str, r: Option<&ScalePoint>)
    requires
        call_ensures(scaling_last, (result, padding), r),
    ensures
        result.scaling is None ==> r is None,
        result.scaling matches Some(points) ==> {
            &&& r is None ==> forall|k: int|
                0 <= k < points@.len() ==> (#[trigger] points@[k]).padding@ != padding@
            &&& r matches Some(p) ==> exists|k: int|
                0 <= k < points@.len() && #[trigger] points@[k] == *p && p.padding@ == padding@
                    && forall|i: int|
                    0 <= i < points@.len() && (#[trigger] points@[i]).padding@ == padding@
                        ==> points@[i].threads <= p.threads && (k < i ==> points@[i].threads
                        < p.threads)
        },
{
    if let Some(points) = result.scaling {
        lemma_widest_place(points@, padding@);
        lemma_widest_point(points@, padding@);
    }
}

proof fn lemma_widest_place(points: Seq<ScalePoint>, padding: Seq<char>)
    ensures
        widest_point(points, padding) matches Some(p) ==> exists|k: int|
            0 <= k < points.len() && #[trigger] points[k] == p && p.padding@ == padding && forall|
                i: int,
            |
                0 <= i < points.len() && (#[trigger] points[i]).padding@ == padding
                    ==> points[i].threads <= p.threads && (k < i ==> points[i].threads < p.threads),
    decreases points.len(),
{
    if points.len() > 0 {
        let less = points.drop_last();
        lemma_widest_place(less, padding);
        lemma_widest_point(points, padding);
        if let Some(p) = widest_point(points, padding) {
            let best = widest_point(less, padding);
            let last = points.last();
            if last.padding@ == padding && (best is None || best->0.threads <= last.threads) {
                assert(points[points.len() - 1] == p);
            } else {
                let k = choose|k: int|
                    0 <= k < less.len() && #[trigger] less[k] == p && p.padding@ == padding
                        && forall|i: int|
                        0 <= i < less.len() && (#[trigger] less[i]).padding@ == padding
                            ==> less[i].threads <= p.threads && (k < i ==> less[i].threads
                            < p.threads);
                assert(points[k] == p);
                assert forall|i: int|
                    0 <= i < points.len() && (#[trigger] points[i]).padding@
                        == padding implies points[i].threads <= p.threads && (k < i
                    ==> points[i].threads < p.threads) by {
                    if i < less.len() {
                        assert(less[i] == points[i]);
                    }
                }
            }
        }
    }
}

/// The cell of a check says what the check said: why the engine did not run, that
/// it agrees with the reference, that it does not, or that it was not checked.
pub open spec fn says_check(
    c: Cell,
    why: Option<String>,
    verified: Option<bool>,
    mismatch: Cell,
) -> bool {
    &&& why matches Some(reason) ==> c == Cell::Unsupported(reason)
    &&& why is None && verified == Some(true) ==> c is Verified
    &&& why is None && verified == Some(false) ==> c == mismatch
    &&& why is None && verified is None ==> c is Unverified
}

/// The cell of a comparison is the first number over the second, where both are
/// finite and the second is above zero, and nothing where they are not.
pub open spec fn says_ratio(c: Cell, top: Real, bottom: Real) -> bool {
    if top.is_finite() && bottom.is_finite() && bottom.is_positive() {
        c == Cell::Ratio(top, bottom)
    } else {
        c is Dash
    }
}

/// A comparison of two numbers of which one may be missing.
pub open spec fn says_pair(c: Cell, top: Option<Real>, bottom: Option<Real>) -> bool {
    if top is Some && bottom is Some {
        says_ratio(c, top->0, bottom->0)
    } else {
        c is ComparatorUnsupported
    }
}

/// A number that may be missing, with so many decimals.
pub open spec fn says_number(c: Cell, value: Option<Real>, decimals: usize) -> bool {
    &&& value matches Some(x) ==> c == Cell::Fixed(x, decimals)
    &&& value is None ==> c is Dash
}

/// A count that may be missing.
pub open spec fn says_count(c: Cell, value: Option<usize>) -> bool {
    &&& value matches Some(n) ==> c == Cell::Count(n)
    &&& value is None ==> c is Dash
}

/// An encode row shows throughput, time per byte and tokens of an engine that
/// ran. Beside another engine it shows this engine's throughput over the other's
/// where both ran and made the same ids, and else why not; alone it shows the
/// check of the ids.
pub proof fn law_single_encode_row(
    r: &EngineResult,
    other: Option<&EngineResult>,
    compare: bool,
    before: Vec<Cell>,
    after: Vec<Cell>,
)
    requires
        exists|row: &mut Vec<Cell>|
            *row == before && *final(row) == after && #[trigger] call_ensures(
                push_result_cells,
                (r, other, MeasureCommand::Encode, compare, row),
                (),
            ),
    ensures
        ({
            let n = before@.len() as int;
            let c = after@[n + 3];
            &&& after@.len() == n + 4
            &&& forall|k: int| 0 <= k < n ==> #[trigger] after@[k] == before@[k]
            &&& r.unsupported is None ==> after@[n] == Cell::Fixed(r.mbps, 1) && after@[n + 1]
                == Cell::Fixed(r.ns_per_byte, 2) && after@[n + 2] == Cell::Count(
                r.total_tokens_produced,
            )
            &&& r.unsupported is Some ==> after@[n] is Dash && after@[n + 1] is Dash && after@[n
                + 2] is Dash
            &&& !compare ==> says_check(c, r.unsupported, r.verified, Cell::IdMismatch)
            &&& compare && r.unsupported is Some ==> c == Cell::Unsupported(r.unsupported->0)
            &&& compare && r.unsupported is None && other is None ==> c is ComparatorMissing
            &&& compare && r.unsupported is None && other is Some ==> {
                &&& other->0.unsupported is Some ==> c is ComparatorUnsupported
                &&& other->0.unsupported is None && r.ids_hash@ != other->0.ids_hash@
                    ==> c is IdMismatch
                &&& other->0.unsupported is None && r.ids_hash@ == other->0.ids_hash@ ==> says_ratio(
                    c,
                    r.mbps,
                    other->0.mbps,
                )
            }
        }),
{
}

/// A decode row shows throughput and time per token. Beside another engine it
/// shows this engine's throughput over the other's where both decoded to the same
/// text, and else why not; alone it shows the check of the text.
pub proof fn law_single_decode_row(
    r: &EngineResult,
    other: Option<&EngineResult>,
    compare: bool,
    before: Vec<Cell>,
    after: Vec<Cell>,
)
    requires
        exists|row: &mut Vec<Cell>|
            *row == before && *final(row) == after && #[trigger] call_ensures(
                push_result_cells,
                (r, other, MeasureCommand::Decode, compare, row),
                (),
            ),
    ensures
        ({
            let n = before@.len() as int;
            let c = after@[n + 2];
            let why = if r.unsupported is Some {
                r.unsupported
            } else {
                r.decode_unsupported
            };
            &&& after@.len() == n + 3
            &&& forall|k: int| 0 <= k < n ==> #[trigger] after@[k] == before@[k]
            &&& says_number(after@[n], r.decode_mbps, 1)
            &&& says_number(after@[n + 1], r.decode_ns_per_token, 1)
            &&& !compare ==> says_check(c, why, r.decode_verified, Cell::TextMismatch)
            &&& compare && why is Some ==> c == Cell::Unsupported(why->0)
            &&& compare && why is None && other is None ==> c is ComparatorMissing
            &&& compare && why is None && other is Some ==> {
                let same_text = text_of(r.decode_text_hash) == text_of(other->0.decode_text_hash);
                &&& other->0.decode_mbps is None ==> c is ComparatorUnsupported
                &&& other->0.decode_mbps is Some && !same_text ==> c is TextMismatch
                &&& other->0.decode_mbps is Some && same_text ==> says_pair(
                    c,
                    r.decode_mbps,
                    other->0.decode_mbps,
                )
            }
        }),
{
}

/// A latency row shows both percentiles and the number of samples. Beside another
/// engine it shows the other's percentiles over this engine's, so that a shorter
/// latency is a greater ratio; alone it shows whether the engine ran.
pub proof fn law_single_latency_row(
    r: &EngineResult,
    other: Option<&EngineResult>,
    compare: bool,
    before: Vec<Cell>,
    after: Vec<Cell>,
)
    requires
        exists|row: &mut Vec<Cell>|
            *row == before && *final(row) == after && #[trigger] call_ensures(
                push_result_cells,
                (r, other, MeasureCommand::Latency, compare, row),
                (),
            ),
    ensures
        ({
            let n = before@.len() as int;
            &&& after@.len() == n + if compare {
                5int
            } else {
                4
            }
            &&& forall|k: int| 0 <= k < n ==> #[trigger] after@[k] == before@[k]
            &&& says_number(after@[n], r.latency_p50_us, 2)
            &&& says_number(after@[n + 1], r.latency_p99_us, 2)
            &&& says_count(after@[n + 2], r.latency_samples)
            &&& !compare && r.unsupported is None ==> after@[n + 3] is Fine
            &&& r.unsupported matches Some(why) ==> after@[n + 3] == Cell::Unsupported(why)
            &&& compare && r.unsupported is Some ==> after@[n + 4] is Dash
            &&& compare && r.unsupported is None && other is None ==> after@[n
                + 3] is ComparatorMissing && after@[n + 4] is Dash
            &&& compare && r.unsupported is None && other is Some ==> says_pair(
                after@[n + 3],
                other->0.latency_p50_us,
                r.latency_p50_us,
            ) && says_pair(after@[n + 4], other->0.latency_p99_us, r.latency_p99_us)
        }),
{
}

/// A memory row shows the loaded and the working heap, the workers and who made
/// the threads. Beside another engine it shows this engine's heap over the
/// other's; alone it shows whether the engine ran.
pub proof fn law_single_memory_row(
    r: &EngineResult,
    other: Option<&EngineResult>,
    compare: bool,
    before: Vec<Cell>,
    after: Vec<Cell>,
)
    requires
        exists|row: &mut Vec<Cell>|
            *row == before && *final(row) == after && #[trigger] call_ensures(
                push_result_cells,
                (r, other, MeasureCommand::Memory, compare, row),
                (),
            ),
    ensures
        ({
            let n = before@.len() as int;
            &&& after@.len() == n + if compare {
                6int
            } else {
                5
            }
            &&& forall|k: int| 0 <= k < n ==> #[trigger] after@[k] == before@[k]
            &&& says_number(after@[n], r.heap_load_mb, 1)
            &&& says_number(after@[n + 1], r.heap_encode_mb, 1)
            &&& says_count(after@[n + 2], r.memory_threads)
            &&& r.memory_parallelism matches Some(p) ==> after@[n + 3] == Cell::Text(p)
            &&& r.memory_parallelism is None ==> after@[n + 3] is Dash
            &&& !compare && r.unsupported is None ==> after@[n + 4] is Fine
            &&& r.unsupported matches Some(why) ==> after@[n + 4] == Cell::Unsupported(why)
            &&& compare && r.unsupported is Some ==> after@[n + 5] == Cell::Unsupported(
                r.unsupported->0,
            )
            &&& compare && r.unsupported is None ==> says_heap(
                after@[n + 4],
                r.heap_load_mb,
                match other {
                    Some(o) => o.heap_load_mb,
                    None => None,
                },
            ) && says_heap(
                after@[n + 5],
                r.heap_encode_mb,
                match other {
                    Some(o) => o.heap_encode_mb,
                    None => None,
                },
            )
        }),
{
}

/// A comparison of two heaps: the first over the second where the second is above
/// zero.
pub open spec fn says_heap(c: Cell, top: Option<Real>, bottom: Option<Real>) -> bool {
    if top is Some && bottom is Some && bottom->0.is_positive() {
        says_ratio(c, top->0, bottom->0)
    } else {
        c is ComparatorUnsupported
    }
}

/// The three cells of one padding mode's curve: the throughput of one thread and
/// of the most threads, and what share of the ideal the latter reached; without a
/// base it says so, and without a curve whether the engine pads at all.
pub open spec fn says_curve(
    cells: Seq<Cell>,
    at: int,
    r: EngineResult,
    padding: Seq<char>,
) -> bool {
    let first = first_point(points_of(r), padding);
    let widest = widest_point(points_of(r), padding);
    &&& first matches Some(p) ==> cells[at] == Cell::Fixed(p.mbps, 1)
    &&& first is None ==> cells[at] is Dash
    &&& widest matches Some(p) ==> cells[at + 1] == Cell::Fixed(p.mbps, 1)
    &&& widest is None ==> cells[at + 1] is Dash
    &&& widest matches Some(p) ==> (p.efficiency_pct.is_positive() ==> cells[at + 2]
        == Cell::Efficiency(p.efficiency_pct, p.threads, p.parallelism)) && (
    !p.efficiency_pct.is_positive() ==> cells[at + 2] == Cell::NoBaseline(p.threads, p.parallelism))
    &&& widest is None ==> if r.padding_unsupported is Some && exists|k: int|
        0 <= k < r.padding_unsupported->0@.len() && (#[trigger] r.padding_unsupported->0@[k])@
            == padding {
        cells[at + 2] is NoNativePadding
    } else {
        cells[at + 2] is Dash
    }
}

/// The two comparisons of one padding mode: this engine's throughput of one
/// thread, and of the most threads, over the other's, where their ids are the
/// same.
pub open spec fn says_curves_compared(
    cells: Seq<Cell>,
    at: int,
    r: EngineResult,
    other: Option<&EngineResult>,
    padding: Seq<char>,
) -> bool {
    &&& r.unsupported matches Some(why) ==> cells[at] == Cell::Unsupported(why) && cells[at
        + 1] is Dash
    &&& r.unsupported is None && other is None ==> cells[at] is ComparatorUnsupported && cells[at
        + 1] is ComparatorUnsupported
    &&& r.unsupported is None && other is Some && r.ids_hash@ != other->0.ids_hash@
        ==> cells[at] is IdMismatch && cells[at + 1] is IdMismatch
    &&& r.unsupported is None && other is Some && r.ids_hash@ == other->0.ids_hash@ ==> says_pair(
        cells[at],
        mbps_of(first_point(points_of(r), padding)),
        mbps_of(first_point(points_of(*other->0), padding)),
    ) && says_pair(
        cells[at + 1],
        mbps_of(widest_point(points_of(r), padding)),
        mbps_of(widest_point(points_of(*other->0), padding)),
    )
}

proof fn lemma_says_curve(cells: Seq<Cell>, at: int, r: EngineResult, padding: Seq<char>)
    requires
        cells[at] == curve_cells(r, padding)[0],
        cells[at + 1] == curve_cells(r, padding)[1],
        cells[at + 2] == curve_cells(r, padding)[2],
    ensures
        says_curve(cells, at, r, padding),
{
    if let Some(modes) = r.padding_unsupported {
        let list = contents(modes@);
        if exists|k: int| 0 <= k < modes@.len() && (#[trigger] modes@[k])@ == padding {
            let k = choose|k: int| 0 <= k < modes@.len() && (#[trigger] modes@[k])@ == padding;
            assert(list[k] == padding);
        }
        if list.contains(padding) {
            let k = choose|k: int| 0 <= k < list.len() && list[k] == padding;
            assert(modes@[k]@ == padding);
        }
    }
}

/// A scaling row shows the curve without padding and then the curve padded.
/// Beside another engine it shows the comparisons of both, in that order; alone it
/// shows the check of the ids.
pub proof fn law_single_scaling_row(
    r: &EngineResult,
    other: Option<&EngineResult>,
    compare: bool,
    before: Vec<Cell>,
    after: Vec<Cell>,
)
    requires
        exists|row: &mut Vec<Cell>|
            *row == before && *final(row) == after && #[trigger] call_ensures(
                push_result_cells,
                (r, other, MeasureCommand::Scaling, compare, row),
                (),
            ),
    ensures
        ({
            let n = before@.len() as int;
            &&& after@.len() == n + if compare {
                10int
            } else {
                7
            }
            &&& forall|k: int| 0 <= k < n ==> #[trigger] after@[k] == before@[k]
            &&& says_curve(after@, n, *r, "off"@)
            &&& says_curve(after@, n + 3, *r, "longest"@)
            &&& !compare ==> says_check(after@[n + 6], r.unsupported, r.verified, Cell::IdMismatch)
            &&& compare ==> says_curves_compared(after@, n + 6, *r, other, "off"@)
            &&& compare ==> says_curves_compared(after@, n + 8, *r, other, "longest"@)
        }),
{
    let n = before@.len() as int;
    let cells = result_cells(*r, behind(other), MeasureCommand::Scaling, compare);
    assert(after@ == before@ + cells);
    assert(after@[n + 3] == cells[3] && after@[n + 4] == cells[4] && after@[n + 5] == cells[5]);
    lemma_says_curve(after@, n, *r, "off"@);
    lemma_says_curve(after@, n + 3, *r, "longest"@);
}

// ---------------------------------------------------------------------------
// Text
// ---------------------------------------------------------------------------

/// The text of a cell that shows no measured number; `None` for one that does.
pub open spec fn shown_text(c: Cell) -> Option<Seq<char>> {
    match c {
        Cell::Dash => Some("-"@),
        Cell::Text(s) => Some(s@),
        Cell::Count(n) => Some(decimal(n as nat)),
        Cell::Range(low, high) => Some(
            decimal(low as nat) + "\u{2013}"@ + decimal(high as nat),
        ),
        Cell::Part { measured, expected, said } => Some(
            decimal(measured as nat) + "/"@ + decimal(expected as nat) + if said {
                " measured"@
            } else {
                ""@
            },
        ),
        Cell::Ratios(list, expected) => if list@.len() == 0 {
            Some("0/"@ + decimal(expected as nat) + " comparable"@)
        } else {
            None
        },
        Cell::Unsupported(why) => Some("unsupported: "@ + why@),
        Cell::Verified => Some("verified"@),
        Cell::Unverified => Some("unverified"@),
        Cell::IdMismatch => Some("id mismatch"@),
        Cell::TextMismatch => Some("text mismatch"@),
        Cell::ComparatorUnsupported => Some("comparator unsupported"@),
        Cell::ComparatorMissing => Some("comparator missing"@),
        Cell::Fine => Some("ok"@),
        Cell::NoNativePadding => Some("no native padding"@),
        Cell::NoBaseline(threads, parallelism) => Some(
            "n/a @ "@ + decimal(threads as nat) + "T ("@ + parallelism@ + ", no 1T baseline)"@,
        ),
        Cell::Fixed(..) | Cell::MedianFixed(..) | Cell::Ratio(..) | Cell::Efficiency(..)
        | Cell::EfficiencyRange(..) => None,
    }
}

/// Two numbers of things with a text between and behind.
fn counts_text(a: usize, between: &str, b: usize, behind: &str) -> (s: String)
    ensures
        s@ == decimal(a as nat) + between@ + decimal(b as nat) + behind@,
{
    let mut s = count_text(a);
    s.append(between);
    let second = count_text(b);
    s.append(second.as_str());
    s.append(behind);
    s
}

/// `shown_text`, computed.
pub fn plain_text(cell: &Cell) -> (r: Option<String>)
    ensures
        text_of(r) == shown_text(*cell),
{
    proof {
        reveal_strlit("");
    }
    match cell {
        Cell::Dash => Some("-".to_owned()),
        Cell::Text(s) => Some(s.clone()),
        Cell::Count(n) => Some(count_text(*n)),
        Cell::Range(low, high) => {
            let s = counts_text(*low, "\u{2013}", *high, "");
            assert(s@ =~= decimal(*low as nat) + "\u{2013}"@ + decimal(*high as nat));
            Some(s)
        },
        Cell::Part { measured, expected, said } => Some(
            counts_text(*measured, "/", *expected, if *said { " measured" } else { "" }),
        ),
        Cell::Ratios(list, expected) => if list.len() == 0 {
            Some(coverage_text(None, 0, *expected))
        } else {
            None
        },
        Cell::Unsupported(why) => {
            let mut s = "unsupported: ".to_owned();
            s.append(why.as_str());
            Some(s)
        },
        Cell::Verified => Some("verified".to_owned()),
        Cell::Unverified => Some("unverified".to_owned()),
        Cell::IdMismatch => Some("id mismatch".to_owned()),
        Cell::TextMismatch => Some("text mismatch".to_owned()),
        Cell::ComparatorUnsupported => Some("comparator unsupported".to_owned()),
        Cell::ComparatorMissing => Some("comparator missing".to_owned()),
        Cell::Fine => Some("ok".to_owned()),
        Cell::NoNativePadding => Some("no native padding".to_owned()),
        Cell::NoBaseline(threads, parallelism) => {
            let mut s = "n/a @ ".to_owned();
            let n = count_text(*threads);
            s.append(n.as_str());
            s.append("T (");
            s.append(parallelism.as_str());
            s.append(", no 1T baseline)");
            Some(s)
        },
        _ => None,
    }
}

/// A ratio is shown where both numbers are finite and the one below is above zero, and as
/// it stands: the first over the second. Otherwise nothing is.
pub proof fn law_ratios_need_something_to_divide_by(
    numerator: Real,
    denominator: Real,
    c: Cell,
    finite_above: bool,
    finite_below: bool,
    positive_below: bool,
)
    requires
        call_ensures(multiplier, (numerator, denominator), c),
        call_ensures(Real::finite, (numerator,), finite_above),
        call_ensures(Real::finite, (denominator,), finite_below),
        call_ensures(Real::positive, (denominator,), positive_below),
    ensures
        finite_above && finite_below && positive_below ==> c == Cell::Ratio(numerator, denominator),
        !(finite_above && finite_below && positive_below) ==> c == Cell::Dash,
{
}

/// What a cell shows in words: its own text, its own numbers, and a phrase of its own for
/// each verdict. Numbers with decimals are shown by others.
pub proof fn law_cells_in_words(cell: &Cell, r: Option<String>)
    requires
        call_ensures(plain_text, (cell,), r),
    ensures
        r is None <==> cell is Fixed || cell is MedianFixed || cell is Ratio || cell is Efficiency
            || cell is EfficiencyRange || (cell is Ratios && cell->Ratios_0@.len() > 0),
        cell is Dash ==> r->0@ == "-"@,
        cell is Text ==> r->0@ == cell->Text_0@,
        cell is Count ==> r->0@ == decimal(cell->Count_0 as nat),
        cell is Range ==> r->0@ == decimal(cell->Range_0 as nat) + "\u{2013}"@ + decimal(
            cell->Range_1 as nat,
        ),
        cell is Part && cell->said ==> r->0@ == decimal(cell->measured as nat) + "/"@ + decimal(
            cell->expected as nat,
        ) + " measured"@,
        cell is Part && !cell->said ==> r->0@ == decimal(cell->measured as nat) + "/"@ + decimal(
            cell->expected as nat,
        ),
        cell is Ratios && cell->Ratios_0@.len() == 0 ==> r->0@ == "0/"@ + decimal(
            cell->Ratios_1 as nat,
        ) + " comparable"@,
        cell is Unsupported ==> r->0@ == "unsupported: "@ + cell->Unsupported_0@,
        cell is Verified ==> r->0@ == "verified"@,
        cell is Unverified ==> r->0@ == "unverified"@,
        cell is IdMismatch ==> r->0@ == "id mismatch"@,
        cell is TextMismatch ==> r->0@ == "text mismatch"@,
        cell is ComparatorUnsupported ==> r->0@ == "comparator unsupported"@,
        cell is ComparatorMissing ==> r->0@ == "comparator missing"@,
        cell is Fine ==> r->0@ == "ok"@,
        cell is NoNativePadding ==> r->0@ == "no native padding"@,
        cell is NoBaseline ==> r->0@ == "n/a @ "@ + decimal(cell->NoBaseline_0 as nat) + "T ("@
            + cell->NoBaseline_1@ + ", no 1T baseline)"@,
{
    reveal_strlit("");
    if cell is Part && !cell->said {
        let s = decimal(cell->measured as nat) + "/"@ + decimal(cell->expected as nat);
        assert(s + ""@ =~= s);
    }
}

}
