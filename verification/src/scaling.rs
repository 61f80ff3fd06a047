//! The scaling sweep: one engine, a list of widths, and an honest answer about
//! who made the threads.
//!
//! An engine that takes a width, or that fans a batch out by itself, is measured
//! through its own batch call. One that does neither is measured as independent
//! instances, one per thread. The running of those threads is the caller's: it
//! hands in a function that takes the instances and the documents and answers
//! with the time.

use crate::clock::{is_reading, nanos_since};
use crate::engine::{appended, batch_texts, fresh, law_bytes_are_utf8, lemma_appended_both, lemma_appended_one,
    total_bytes, Engine, Ids, Padding, Run};
use crate::order::{along, in_order, law_order_rearranges, ranked};
use crate::scan::contents;
use crate::stats::{is_median, median, Middle};
use crate::text::byte_len;
use std::hint::black_box;
use std::time::Instant;
use vstd::prelude::*;
use vstd::utf8::encode_utf8;

verus! {

#[derive(Clone, Copy, Debug, PartialEq, Eq, Structural)]
pub enum ScalingKind {
    NativeThreads,
    IndependentInstances,
}

impl ScalingKind {
    pub open spec fn label(self) -> Seq<char> {
        match self {
            ScalingKind::NativeThreads => "native-threads"@,
            ScalingKind::IndependentInstances => "independent-instances"@,
        }
    }

    pub fn as_str(self) -> (r: &'static str)
        ensures
            r@ == self.label(),
    {
        match self {
            ScalingKind::NativeThreads => "native-threads",
            ScalingKind::IndependentInstances => "independent-instances",
        }
    }
}

#[derive(Clone, Copy, Debug, PartialEq, Eq, Structural)]
pub enum ScalingMode {
    Auto,
    NativeThreads,
    IndependentInstances,
}

impl Default for ScalingMode {
    fn default() -> (r: Self)
        ensures
            r == ScalingMode::Auto,
    {
        ScalingMode::Auto
    }
}

/// One width of a sweep: the median time over the measured documents, and that
/// of the one-thread point where there is one. Width 0 is the engine's own
/// choice.
#[derive(Clone, Copy, Debug, PartialEq, Eq)]
pub struct ThreadPoint {
    pub threads: usize,
    pub bytes: usize,
    pub pace: Middle<u64>,
    pub base: Option<Middle<u64>>,
}

/// What a sweep found.
#[derive(Clone, Debug)]
pub struct Scaling {
    pub kind: ScalingKind,
    pub padding: Padding,
    pub points: Vec<ThreadPoint>,
}

impl Scaling {
    fn empty(kind: ScalingKind, padding: Padding) -> (r: Self)
        ensures
            is_empty_scaling(Some(r), kind, padding),
    {
        Scaling { kind, padding, points: Vec::new() }
    }
}

/// Whether `r` is a sweep of this kind without points.
pub open spec fn is_empty_scaling(
    r: Option<Scaling>,
    kind: ScalingKind,
    padding: Padding,
) -> bool {
    r is Some && r->0.kind == kind && r->0.padding == padding && r->0.points@.len() == 0
}

// ---------------------------------------------------------------------------
// Warm and measured documents
// ---------------------------------------------------------------------------

/// Every sixth document, from the first: those the engines are warmed on.
pub open spec fn warm_of(docs: Seq<Seq<char>>) -> Seq<Seq<char>>
    decreases docs.len(),
{
    if docs.len() == 0 {
        Seq::empty()
    } else if (docs.len() - 1) % 6 == 0 {
        warm_of(docs.drop_last()).push(docs.last())
    } else {
        warm_of(docs.drop_last())
    }
}

/// All other documents: those the engines are timed on.
pub open spec fn measured_of(docs: Seq<Seq<char>>) -> Seq<Seq<char>>
    decreases docs.len(),
{
    if docs.len() == 0 {
        Seq::empty()
    } else if (docs.len() - 1) % 6 == 0 {
        measured_of(docs.drop_last())
    } else {
        measured_of(docs.drop_last()).push(docs.last())
    }
}

/// The two sets share no position and leave none out: document `k` stands in
/// exactly one of them, at a place of its own.
pub proof fn law_split(docs: Seq<Seq<char>>, k: int)
    requires
        0 <= k < docs.len(),
    ensures
        warm_of(docs).len() == (docs.len() + 5) / 6,
        measured_of(docs).len() == docs.len() - (docs.len() + 5) / 6,
        k % 6 == 0 ==> warm_of(docs)[k / 6] == docs[k],
        k % 6 != 0 ==> measured_of(docs)[k - k / 6 - 1] == docs[k],
    decreases docs.len(),
{
    let less = docs.drop_last();
    if less.len() > 0 {
        law_split(less, if k < less.len() { k } else { 0 });
    } else {
        assert(warm_of(less).len() == 0 && measured_of(less).len() == 0);
    }
}

/// `warm_of` and `measured_of`, computed.
fn split<'a>(chunks: &'a [String]) -> (r: (Vec<&'a str>, Vec<&'a str>))
    ensures
        batch_texts(r.0@) == warm_of(contents(chunks@)),
        batch_texts(r.1@) == measured_of(contents(chunks@)),
{
    let ghost docs = contents(chunks@);
    let mut warm: Vec<&'a str> = Vec::new();
    let mut measured: Vec<&'a str> = Vec::new();
    let mut i: usize = 0;
    assert(docs.take(0) =~= Seq::empty());
    while i < chunks.len()
        invariant
            i <= chunks@.len(),
            docs == contents(chunks@),
            batch_texts(warm@) =~= warm_of(docs.take(i as int)),
            batch_texts(measured@) =~= measured_of(docs.take(i as int)),
        decreases chunks@.len() - i,
    {
        assert(docs.take(i + 1).drop_last() =~= docs.take(i as int));
        if i % 6 == 0 {
            warm.push(chunks[i].as_str());
        } else {
            measured.push(chunks[i].as_str());
        }
        i = i + 1;
    }
    assert(docs.take(docs.len() as int) =~= docs);
    (warm, measured)
}

/// The measured documents hold no more bytes than all of them.
proof fn lemma_measured_bytes(docs: Seq<Seq<char>>)
    ensures
        total_bytes(measured_of(docs)) <= total_bytes(docs),
    decreases docs.len(),
{
    if docs.len() > 0 {
        lemma_measured_bytes(docs.drop_last());
        let less = measured_of(docs.drop_last());
        assert(less.push(docs.last()).drop_last() =~= less);
    }
}

fn batch_bytes(batch: &Vec<&str>) -> (n: usize)
    requires
        total_bytes(batch_texts(batch@)) <= usize::MAX,
    ensures
        n == total_bytes(batch_texts(batch@)),
{
    let ghost all = batch_texts(batch@);
    let mut n: usize = 0;
    let mut i: usize = 0;
    assert(all.take(0) =~= Seq::empty());
    while i < batch.len()
        invariant
            i <= batch@.len(),
            all == batch_texts(batch@),
            total_bytes(all) <= usize::MAX,
            n == total_bytes(all.take(i as int)),
        decreases batch@.len() - i,
    {
        proof {
            assert(all.take(i + 1) =~= all.subrange(0, i + 1));
            crate::engine::lemma_total_bytes_within(all, 0, i + 1);
            assert(all.take(i + 1).drop_last() =~= all.take(i as int));
        }
        n = n + byte_len(batch[i]);
        i = i + 1;
    }
    assert(all.take(all.len() as int) =~= all);
    n
}

// ---------------------------------------------------------------------------
// The plan
// ---------------------------------------------------------------------------

/// What a sweep does once the engine's answers are known.
pub enum Plan {
    /// The cell does not exist for this engine.
    NoCell,
    /// Nothing to run, reported as a sweep of this kind without points.
    Empty { kind: ScalingKind },
    /// These widths, each instance pinned to one thread or not.
    Run { kind: ScalingKind, widths: Vec<usize>, pin: bool },
}

/// A plan as a value of the contracts.
pub ghost enum Planned {
    NoCell,
    Empty { kind: ScalingKind },
    Run { kind: ScalingKind, widths: Seq<usize>, pin: bool },
}

impl View for Plan {
    type V = Planned;

    open spec fn view(&self) -> Planned {
        match self {
            Plan::NoCell => Planned::NoCell,
            Plan::Empty { kind } => Planned::Empty { kind: *kind },
            Plan::Run { kind, widths, pin } => Planned::Run {
                kind: *kind,
                widths: widths@,
                pin: *pin,
            },
        }
    }
}

/// The plan of a sweep: `pads` says whether the engine honours the padding,
/// `settable` which widths it takes, `native_batch` whether it fans batches out
/// by itself.
pub open spec fn plan_of(
    mode: ScalingMode,
    pads: bool,
    settable: Seq<usize>,
    native_batch: bool,
    counts: Seq<usize>,
    padding: Padding,
) -> Planned {
    let pinnable = settable.contains(1);
    if !pads {
        Planned::NoCell
    } else if mode != ScalingMode::IndependentInstances && (settable.len() > 0 || native_batch) {
        Planned::Run {
            kind: ScalingKind::NativeThreads,
            widths: if settable.len() > 0 {
                settable
            } else {
                seq![0]
            },
            pin: false,
        }
    } else if mode == ScalingMode::NativeThreads {
        Planned::Empty { kind: ScalingKind::NativeThreads }
    } else if mode == ScalingMode::IndependentInstances && native_batch && !pinnable {
        Planned::Empty { kind: ScalingKind::IndependentInstances }
    } else if padding != Padding::Off {
        Planned::NoCell
    } else if counts.len() == 0 {
        Planned::Empty { kind: ScalingKind::IndependentInstances }
    } else {
        Planned::Run {
            kind: ScalingKind::IndependentInstances,
            widths: counts,
            pin: mode == ScalingMode::IndependentInstances && pinnable,
        }
    }
}

/// Padding means something only where the engine drives its own batch: no plan
/// runs independent instances padded.
pub proof fn law_no_padded_instances(
    mode: ScalingMode,
    pads: bool,
    settable: Seq<usize>,
    native_batch: bool,
    counts: Seq<usize>,
    padding: Padding,
)
    ensures
        plan_of(mode, pads, settable, native_batch, counts, padding) matches Planned::Run {
            kind,
            ..
        } ==> kind == ScalingKind::NativeThreads || padding == Padding::Off,
{
}

/// An engine that fans batches out by itself is never threaded from outside
/// unless each instance can be pinned to one thread.
pub proof fn law_native_batch_never_oversubscribed(
    mode: ScalingMode,
    pads: bool,
    settable: Seq<usize>,
    counts: Seq<usize>,
    padding: Padding,
)
    ensures
        plan_of(mode, pads, settable, true, counts, padding) matches Planned::Run {
            kind: ScalingKind::IndependentInstances,
            pin,
            ..
        } ==> pin && settable.contains(1),
{
}

/// `plan_of`, computed.
pub fn plan(
    mode: ScalingMode,
    pads: bool,
    settable: Vec<usize>,
    native_batch: bool,
    counts: &[usize],
    padding: Padding,
) -> (r: Plan)
    ensures
        r@ == plan_of(mode, pads, settable@, native_batch, counts@, padding),
{
    if !pads {
        return Plan::NoCell;
    }
    let pinnable = has_one(&settable);
    if mode != ScalingMode::IndependentInstances && settable.len() > 0 {
        return Plan::Run { kind: ScalingKind::NativeThreads, widths: settable, pin: false };
    }
    if mode != ScalingMode::IndependentInstances && native_batch {
        let mut widths: Vec<usize> = Vec::new();
        widths.push(0);
        assert(widths@ =~= seq![0usize]);
        return Plan::Run { kind: ScalingKind::NativeThreads, widths, pin: false };
    }
    if mode == ScalingMode::NativeThreads {
        return Plan::Empty { kind: ScalingKind::NativeThreads };
    }
    if mode == ScalingMode::IndependentInstances && native_batch && !pinnable {
        return Plan::Empty { kind: ScalingKind::IndependentInstances };
    }
    if padding != Padding::Off {
        return Plan::NoCell;
    }
    if counts.len() == 0 {
        return Plan::Empty { kind: ScalingKind::IndependentInstances };
    }
    let mut widths: Vec<usize> = Vec::new();
    widths.extend_from_slice(counts);
    assert(widths@ =~= counts@);
    Plan::Run {
        kind: ScalingKind::IndependentInstances,
        widths,
        pin: mode == ScalingMode::IndependentInstances && pinnable,
    }
}

/// An engine that does not pad as asked has no sweep, whatever else it can do.
pub proof fn law_plan_needs_the_padding(
    mode: ScalingMode,
    settable: Vec<usize>,
    native_batch: bool,
    counts: &[usize],
    padding: Padding,
    r: Plan,
)
    requires
        call_ensures(plan, (mode, false, settable, native_batch, counts, padding), r),
    ensures
        r is NoCell,
{
}

/// Asked for independent instances without padding, an engine is run at every
/// width that was asked for, whatever widths it takes itself: all of them, in
/// their order, each instance held to one thread where the engine takes one. Only
/// an engine that fans batches out and cannot be held to one thread is not run.
pub proof fn law_plan_of_instances(
    settable: Vec<usize>,
    native_batch: bool,
    counts: &[usize],
    r: Plan,
)
    requires
        call_ensures(
            plan,
            (ScalingMode::IndependentInstances, true, settable, native_batch, counts, Padding::Off),
            r,
        ),
    ensures
        counts@.len() > 0 && (!native_batch || settable@.contains(1)) ==> (r matches Plan::Run {
            kind,
            widths,
            pin,
        } && kind == ScalingKind::IndependentInstances && widths@ == counts@ && pin
            == settable@.contains(1)),
        counts@.len() == 0 || (native_batch && !settable@.contains(1)) ==> (r matches Plan::Empty {
            kind,
        } && kind == ScalingKind::IndependentInstances),
{
}

/// Where the choice is the engine's, or its own threads are asked for, an engine
/// that takes some of the widths is run by itself at exactly those, padded or
/// not; and one that takes none but fans batches out is run once, at the width of
/// its own choice.
pub proof fn law_plan_of_native_threads(
    mode: ScalingMode,
    settable: Vec<usize>,
    native_batch: bool,
    counts: &[usize],
    padding: Padding,
    r: Plan,
)
    requires
        mode == ScalingMode::Auto || mode == ScalingMode::NativeThreads,
        settable@.len() > 0 || native_batch,
        call_ensures(plan, (mode, true, settable, native_batch, counts, padding), r),
    ensures
        r matches Plan::Run { kind, widths, pin } && kind == ScalingKind::NativeThreads && !pin
            && widths@.len() > 0,
        settable@.len() > 0 ==> (r matches Plan::Run { widths, .. } && widths@ == settable@),
        settable@.len() == 0 ==> (r matches Plan::Run { widths, .. } && widths@.len() == 1
            && widths@[0] == 0),
{
}

/// An engine that takes no width and fans nothing out has no threads of its own:
/// asked for them it has an empty sweep. Where the choice is its own it is run as
/// independent instances at every width, none of them held; padded it is not run.
pub proof fn law_plan_of_a_plain_engine(
    mode: ScalingMode,
    settable: Vec<usize>,
    counts: &[usize],
    padding: Padding,
    r: Plan,
)
    requires
        settable@.len() == 0,
        call_ensures(plan, (mode, true, settable, false, counts, padding), r),
    ensures
        mode == ScalingMode::NativeThreads ==> (r matches Plan::Empty { kind } && kind
            == ScalingKind::NativeThreads),
        mode != ScalingMode::NativeThreads && padding == Padding::Longest ==> r is NoCell,
        mode != ScalingMode::NativeThreads && padding == Padding::Off && counts@.len() > 0 ==> (
        r matches Plan::Run { kind, widths, pin } && kind == ScalingKind::IndependentInstances
            && widths@ == counts@ && !pin),
        mode != ScalingMode::NativeThreads && padding == Padding::Off && counts@.len() == 0 ==> (
        r matches Plan::Empty { kind } && kind == ScalingKind::IndependentInstances),
{
}

/// Asked for independent instances with padding, there is nothing to run: there
/// is no batch to pad. An engine that fans batches out and cannot be held to one
/// thread says so with an empty sweep, any other has none.
pub proof fn law_plan_of_padded_instances(
    settable: Vec<usize>,
    native_batch: bool,
    counts: &[usize],
    r: Plan,
)
    requires
        call_ensures(
            plan,
            (
                ScalingMode::IndependentInstances,
                true,
                settable,
                native_batch,
                counts,
                Padding::Longest,
            ),
            r,
        ),
    ensures
        native_batch && !settable@.contains(1) ==> (r matches Plan::Empty { kind } && kind
            == ScalingKind::IndependentInstances),
        !native_batch || settable@.contains(1) ==> r is NoCell,
{
}

fn has_one(list: &Vec<usize>) -> (r: bool)
    ensures
        r == list@.contains(1),
{
    let mut i: usize = 0;
    while i < list.len()
        invariant
            i <= list@.len(),
            forall|k: int| 0 <= k < i ==> list@[k] != 1,
        decreases list@.len() - i,
    {
        if list[i] == 1 {
            assert(list@[i as int] == 1);
            return true;
        }
        i = i + 1;
    }
    false
}

// ---------------------------------------------------------------------------
// The points
// ---------------------------------------------------------------------------

/// The pace of the first one-thread width, if there is one.
pub open spec fn base_of(widths: Seq<usize>, paces: Seq<Middle<u64>>) -> Option<Middle<u64>>
    decreases widths.len(),
{
    if widths.len() == 0 {
        None
    } else if widths[0] == 1 {
        Some(paces[0])
    } else {
        base_of(widths.drop_first(), paces.drop_first())
    }
}

/// The points of a sweep, in the order of their widths.
pub open spec fn are_points(
    widths: Seq<usize>,
    paces: Seq<Middle<u64>>,
    bytes: usize,
    points: Seq<ThreadPoint>,
) -> bool {
    exists|order: Seq<usize>| #[trigger]
        in_order(widths, order) && points == Seq::new(
            widths.len(),
            |i: int|
                ThreadPoint {
                    threads: widths[order[i] as int],
                    bytes,
                    pace: paces[order[i] as int],
                    base: base_of(widths, paces),
                },
        )
}

/// A sweep is reported in rising width whatever order it was measured in, and
/// efficiency has a base exactly where one thread was measured.
pub proof fn law_points_in_order(
    widths: Seq<usize>,
    paces: Seq<Middle<u64>>,
    bytes: usize,
    points: Seq<ThreadPoint>,
)
    requires
        widths.len() == paces.len(),
        are_points(widths, paces, bytes, points),
    ensures
        points.len() == widths.len(),
        forall|i: int, j: int|
            0 <= i < j < points.len() ==> #[trigger] points[i].threads
                <= #[trigger] points[j].threads,
        forall|i: int|
            0 <= i < points.len() ==> ((#[trigger] points[i]).base is Some <==> widths.contains(1)),
{
    lemma_base(widths, paces);
}

proof fn lemma_base(widths: Seq<usize>, paces: Seq<Middle<u64>>)
    ensures
        base_of(widths, paces) is Some <==> widths.contains(1),
    decreases widths.len(),
{
    if widths.len() > 0 {
        lemma_base(widths.drop_first(), paces.drop_first());
        if widths[0] != 1 {
            if widths.contains(1) {
                let k = choose|k: int| 0 <= k < widths.len() && widths[k] == 1;
                assert(widths.drop_first()[k - 1] == 1);
            }
            if widths.drop_first().contains(1) {
                let k = choose|k: int|
                    0 <= k < widths.drop_first().len() && widths.drop_first()[k] == 1;
                assert(widths[k + 1] == 1);
            }
        }
    }
}

fn find_base(widths: &[usize], paces: &[Middle<u64>]) -> (r: Option<Middle<u64>>)
    requires
        widths@.len() == paces@.len(),
    ensures
        r == base_of(widths@, paces@),
{
    let mut i: usize = 0;
    assert(widths@.skip(0) =~= widths@);
    assert(paces@.skip(0) =~= paces@);
    while i < widths.len()
        invariant
            i <= widths@.len() == paces@.len(),
            base_of(widths@, paces@) == base_of(widths@.skip(i as int), paces@.skip(i as int)),
        decreases widths@.len() - i,
    {
        if widths[i] == 1 {
            return Some(paces[i]);
        }
        assert(widths@.skip(i as int).drop_first() =~= widths@.skip(i + 1));
        assert(paces@.skip(i as int).drop_first() =~= paces@.skip(i + 1));
        i = i + 1;
    }
    None
}

/// `are_points`, computed.
pub fn points(widths: &[usize], paces: &[Middle<u64>], bytes: usize) -> (r: Vec<ThreadPoint>)
    requires
        widths@.len() == paces@.len(),
    ensures
        are_points(widths@, paces@, bytes, r@),
{
    let base = find_base(widths, paces);
    let order = ranked(widths);
    let mut r: Vec<ThreadPoint> = Vec::new();
    let mut i: usize = 0;
    while i < order.len()
        invariant
            i <= order@.len(),
            in_order(widths@, order@),
            widths@.len() == paces@.len(),
            base == base_of(widths@, paces@),
            r@.len() == i,
            forall|k: int|
                0 <= k < i ==> #[trigger] r@[k] == (ThreadPoint {
                    threads: widths@[order@[k] as int],
                    bytes,
                    pace: paces@[order@[k] as int],
                    base,
                }),
        decreases order@.len() - i,
    {
        let k: usize = order[i];
        r.push(ThreadPoint { threads: widths[k], bytes, pace: paces[k], base });
        i = i + 1;
    }
    assert(r@ =~= Seq::new(
        widths@.len(),
        |i: int|
            ThreadPoint {
                threads: widths@[order@[i] as int],
                bytes,
                pace: paces@[order@[i] as int],
                base: base_of(widths@, paces@),
            },
    ));
    r
}

/// Every width keeps its own time: each that was measured has a point with the
/// time it took, and each point is one of them, over the same bytes.
pub proof fn law_points_keep_their_times(
    widths: &[usize],
    paces: &[Middle<u64>],
    bytes: usize,
    r: Vec<ThreadPoint>,
    k: int,
    i: int,
)
    requires
        widths@.len() == paces@.len(),
        call_ensures(points, (widths, paces, bytes), r),
        0 <= k < widths@.len(),
        0 <= i < r@.len(),
    ensures
        r@.len() == widths@.len(),
        exists|at: int|
            0 <= at < r@.len() && (#[trigger] r@[at]).threads == widths@[k] && r@[at].pace
                == paces@[k],
        exists|at: int|
            0 <= at < widths@.len() && r@[i].threads == #[trigger] widths@[at] && r@[i].pace
                == paces@[at],
        r@[i].bytes == bytes,
{
    assert(widths@.len() == widths.len());
    let order = choose|order: Seq<usize>| #[trigger]
        in_order(widths@, order) && r@ == Seq::new(
            widths@.len(),
            |i: int|
                ThreadPoint {
                    threads: widths@[order[i] as int],
                    bytes,
                    pace: paces@[order[i] as int],
                    base: base_of(widths@, paces@),
                },
        );
    assert(order.contains(k as usize));
    let at = choose|at: int| 0 <= at < order.len() && order[at] == k as usize;
    assert(r@[at].threads == widths@[k] && r@[at].pace == paces@[k]);
    let from = order[i] as int;
    assert(0 <= order[i] < widths@.len());
    assert(r@[i].threads == widths@[from] && r@[i].pace == paces@[from]);
}

/// Every point is compared with the first width of one thread that was measured,
/// and with nothing where there was none.
pub proof fn law_points_share_their_base(
    widths: &[usize],
    paces: &[Middle<u64>],
    bytes: usize,
    r: Vec<ThreadPoint>,
    i: int,
    one: int,
)
    requires
        widths@.len() == paces@.len(),
        call_ensures(points, (widths, paces, bytes), r),
        0 <= i < r@.len(),
        0 <= one <= widths@.len(),
        forall|k: int| 0 <= k < one ==> #[trigger] widths@[k] != 1,
        one < widths@.len() ==> widths@[one] == 1,
    ensures
        one < widths@.len() ==> r@[i].base == Some(paces@[one]),
        one == widths@.len() ==> r@[i].base is None,
{
    if one < widths@.len() {
        lemma_first_base(widths@, paces@, one);
    } else {
        lemma_base(widths@, paces@);
    }
}

proof fn lemma_first_base(widths: Seq<usize>, paces: Seq<Middle<u64>>, one: int)
    requires
        widths.len() == paces.len(),
        0 <= one < widths.len(),
        widths[one] == 1,
        forall|k: int| 0 <= k < one ==> #[trigger] widths[k] != 1,
    ensures
        base_of(widths, paces) == Some(paces[one]),
    decreases widths.len(),
{
    if one > 0 {
        assert(widths[0] != 1);
        let rest = widths.drop_first();
        assert forall|k: int| 0 <= k < one - 1 implies #[trigger] rest[k] != 1 by {
            assert(rest[k] == widths[k + 1]);
        }
        lemma_first_base(rest, paces.drop_first(), one - 1);
    }
}

// ---------------------------------------------------------------------------
// Asking and timing
// ---------------------------------------------------------------------------

/// The counts that were answered with yes.
pub open spec fn chosen(counts: Seq<usize>, yes: Seq<bool>) -> Seq<usize>
    decreases counts.len(),
{
    if counts.len() == 0 {
        Seq::empty()
    } else if yes[counts.len() - 1] {
        chosen(counts.drop_last(), yes).push(counts.last())
    } else {
        chosen(counts.drop_last(), yes)
    }
}

proof fn lemma_chosen_prefix(counts: Seq<usize>, a: Seq<bool>, b: Seq<bool>)
    requires
        forall|k: int| 0 <= k < counts.len() ==> a[k] == b[k],
    ensures
        chosen(counts, a) == chosen(counts, b),
    decreases counts.len(),
{
    if counts.len() > 0 {
        lemma_chosen_prefix(counts.drop_last(), a, b);
    }
}

/// Asks an engine for a padding and then whether it fans batches out by itself.
/// `None` where it refuses the padding.
pub fn probe<E: Engine + ?Sized>(engine: &mut E, padding: Padding) -> (r: Option<bool>)
    ensures
        final(engine).runs() == old(engine).runs(),
        final(engine).decodes() == old(engine).decodes(),
        exists|p: &mut E, pads: bool|
            &*p == &*old(engine) && &*final(p) == &*final(engine) && #[trigger] call_ensures(
                E::set_padding,
                (p, padding),
                pads,
            ) && (r is Some <==> pads),
        r matches Some(native_batch) ==> call_ensures(
            E::has_native_batch,
            (&*final(engine),),
            native_batch,
        ),
{
    if engine.set_padding(padding) {
        Some(engine.has_native_batch())
    } else {
        None
    }
}

/// Whether a fresh engine takes a width. One that cannot be made takes none.
pub fn takes_width<E: Engine, F: Fn() -> Option<E>>(make: &F, threads: usize) -> (r: bool)
    requires
        call_requires(*make, ()),
    ensures
        (!r && call_ensures(*make, (), None)) || exists|w: &mut E|
            call_ensures(*make, (), Some(*w)) && #[trigger] call_ensures(
                E::set_threads,
                (w, threads),
                r,
            ),
{
    match make() {
        Some(mut engine) => engine.set_threads(threads),
        None => false,
    }
}

/// Whether these are answers that fresh engines give to these counts.
pub open spec fn are_answers<E: Engine, F: Fn() -> Option<E>>(
    make: F,
    counts: Seq<usize>,
    yes: Seq<bool>,
) -> bool {
    &&& yes.len() == counts.len()
    &&& forall|k: int|
        0 <= k < counts.len() ==> call_ensures(
            takes_width::<E, F>,
            (&make, counts[k]),
            #[trigger] yes[k],
        )
}

/// The counts a fresh engine takes, each asked of an engine of its own.
pub fn settable_widths<E: Engine, F: Fn() -> Option<E>>(make: &F, counts: &[usize]) -> (r: Vec<
    usize,
>)
    requires
        call_requires(*make, ()),
    ensures
        exists|yes: Seq<bool>|
            are_answers::<E, F>(*make, counts@, yes) && r@ == #[trigger] chosen(counts@, yes),
{
    let mut r: Vec<usize> = Vec::new();
    let ghost mut yes: Seq<bool> = Seq::empty();
    let mut i: usize = 0;
    assert(counts@.take(0) =~= Seq::empty());
    while i < counts.len()
        invariant
            i <= counts@.len(),
            call_requires(*make, ()),
            are_answers::<E, F>(*make, counts@.take(i as int), yes),
            r@ =~= chosen(counts@.take(i as int), yes),
        decreases counts@.len() - i,
    {
        let n: usize = counts[i];
        let takes = takes_width(make, n);
        proof {
            lemma_chosen_prefix(counts@.take(i as int), yes, yes.push(takes));
            assert(counts@.take(i + 1).drop_last() =~= counts@.take(i as int));
            let more = yes.push(takes);
            assert forall|k: int| 0 <= k < i + 1 implies call_ensures(
                takes_width::<E, F>,
                (make, counts@.take(i + 1)[k]),
                #[trigger] more[k],
            ) by {
                if k < i {
                    assert(more[k] == yes[k]);
                    assert(counts@.take(i + 1)[k] == counts@.take(i as int)[k]);
                }
            }
            yes = more;
        }
        if takes {
            r.push(n);
        }
        i = i + 1;
    }
    assert(counts@.take(counts@.len() as int) =~= counts@);
    r
}

/// Asks an engine for a width, unless that is 0, and then for a padding. The
/// answer says whether both are honoured.
pub fn prepare<E: Engine + ?Sized>(engine: &mut E, threads: usize, padding: Padding) -> (r: bool)
    ensures
        final(engine).runs() == old(engine).runs(),
        final(engine).decodes() == old(engine).decodes(),
        threads == 0 ==> exists|p: &mut E|
            &*p == &*old(engine) && &*final(p) == &*final(engine) && #[trigger] call_ensures(
                E::set_padding,
                (p, padding),
                r,
            ),
        threads != 0 ==> exists|w: &mut E, takes: bool|
            &*w == &*old(engine) && #[trigger] call_ensures(E::set_threads, (w, threads), takes) && (
            !takes ==> !r && &*final(w) == &*final(engine)) && (takes ==> exists|p: &mut E|
                &*p == &*final(w) && &*final(p) == &*final(engine) && #[trigger] call_ensures(
                    E::set_padding,
                    (p, padding),
                    r,
                )),
{
    if threads != 0 && !engine.set_threads(threads) {
        return false;
    }
    engine.set_padding(padding)
}

/// Hands an engine two batches through its own batch call, each with an empty
/// buffer: the one to warm it, the other under the clock.
pub fn time_batches<E: Engine + ?Sized>(engine: &mut E, warm: &[&str], measured: &[&str]) -> (r: u64)
    ensures
        appended(
            old(engine).runs(),
            final(engine).runs(),
            batch_texts(warm@) + batch_texts(measured@),
        ),
        final(engine).decodes() == old(engine).decodes(),
        exists|a: &mut E, x: &mut Ids, b: &mut E, y: &mut Ids|
            &*a == &*old(engine) && &*b == &*final(a) && &*final(b) == &*final(engine) && x@.len()
                == 0 && y@.len() == 0 && #[trigger] call_ensures(E::encode_batch, (a, warm, x), ())
                && #[trigger] call_ensures(E::encode_batch, (b, measured, y), ()),
        is_reading(r),
{
    let mut buf: Ids = Vec::new();
    engine.encode_batch(warm, &mut buf);
    let ghost mid = engine.runs();
    buf.clear();
    let t0 = Instant::now();
    engine.encode_batch(measured, &mut buf);
    let elapsed: u64 = nanos_since(&t0);
    let _ = black_box(&buf);
    proof {
        lemma_appended_both(
            old(engine).runs(),
            mid,
            engine.runs(),
            batch_texts(warm@),
            batch_texts(measured@),
        );
    }
    elapsed
}

/// Times one engine over one batch, at a width it is asked for unless that is 0,
/// and then a padding. `None` exactly where it refuses the width or the padding;
/// then it has encoded nothing and stands as that refusal left it.
pub fn time_native_batch<E: Engine + ?Sized>(
    engine: &mut E,
    warm: &[&str],
    measured: &[&str],
    threads: usize,
    padding: Padding,
) -> (r: Option<u64>)
    ensures
        r is None ==> final(engine).runs() == old(engine).runs(),
        r is Some ==> appended(
            old(engine).runs(),
            final(engine).runs(),
            batch_texts(warm@) + batch_texts(measured@),
        ),
        final(engine).decodes() == old(engine).decodes(),
        exists|a: &mut E, ready: bool|
            &*a == &*old(engine) && #[trigger] call_ensures(
                prepare::<E>,
                (a, threads, padding),
                ready,
            ) && (r is Some <==> ready) && (!ready ==> &*final(a) == &*final(engine)) && (
            ready ==> exists|b: &mut E, nanos: u64|
                &*b == &*final(a) && &*final(b) == &*final(engine) && #[trigger] call_ensures(
                    time_batches::<E>,
                    (b, warm, measured),
                    nanos,
                ) && r == Some(nanos)),
        r is Some ==> is_reading(r->0),
{
    if prepare(engine, threads, padding) {
        Some(time_batches(engine, warm, measured))
    } else {
        None
    }
}

/// Encodes one text into an empty buffer and hands the engine back.
pub fn encode_one<E: Engine>(engine: E, text: &str) -> (r: E)
    ensures
        r.runs().len() == engine.runs().len() + 1,
        r.runs().drop_last() == engine.runs(),
        r.runs().last().text == text@,
        r.runs().last().given.len() == 0,
        r.decodes() == engine.decodes(),
        exists|e: &mut E, ids: &mut Ids|
            *e == engine && *final(e) == r && ids@.len() == 0 && #[trigger] call_ensures(
                E::encode,
                (e, text, ids),
                (),
            ),
{
    let mut engine = engine;
    let mut buf: Ids = Vec::new();
    engine.encode(text, &mut buf);
    engine
}

/// Whether an engine that stood as `before` stands as `after` once it was handed
/// these texts one by one, each by a call of its own and with an empty buffer.
pub open spec fn one_by_one<E: Engine>(before: E, list: Seq<&str>, after: E) -> bool
    decreases list.len(),
{
    if list.len() == 0 {
        after == before
    } else {
        exists|mid: E|
            one_by_one(before, list.drop_last(), mid) && #[trigger] call_ensures(
                encode_one::<E>,
                (mid, list.last()),
                after,
            )
    }
}

/// An engine that was handed texts one by one has encoded exactly those, each
/// into an empty buffer.
pub proof fn law_one_by_one<E: Engine>(before: E, list: Seq<&str>, after: E)
    requires
        one_by_one(before, list, after),
    ensures
        appended(before.runs(), after.runs(), batch_texts(list)),
        fresh(after.runs(), before.runs().len()),
        after.decodes() == before.decodes(),
    decreases list.len(),
{
    if list.len() > 0 {
        let mid = choose|mid: E|
            one_by_one(before, list.drop_last(), mid) && #[trigger] call_ensures(
                encode_one::<E>,
                (mid, list.last()),
                after,
            );
        law_one_by_one(before, list.drop_last(), mid);
        let run = after.runs().last();
        assert(after.runs() =~= mid.runs().push(run));
        lemma_appended_one(mid.runs(), run);
        lemma_appended_both(
            before.runs(),
            mid.runs(),
            after.runs(),
            batch_texts(list.drop_last()),
            seq![run.text],
        );
        assert(batch_texts(list) =~= batch_texts(list.drop_last()) + seq![run.text]);
    }
}

/// Encodes every text of a batch, one call each.
fn encode_each<E: Engine>(engine: E, batch: &[&str]) -> (r: E)
    ensures
        one_by_one(engine, batch@, r),
{
    let ghost before = engine;
    let mut engine = engine;
    let mut i: usize = 0;
    assert(batch@.take(0) =~= Seq::empty());
    while i < batch.len()
        invariant
            i <= batch@.len(),
            one_by_one(before, batch@.take(i as int), engine),
        decreases batch@.len() - i,
    {
        let ghost mid = engine;
        engine = encode_one(engine, batch[i]);
        proof {
            assert(batch@.take(i + 1).drop_last() =~= batch@.take(i as int));
            assert(call_ensures(encode_one::<E>, (mid, batch@.take(i + 1).last()), engine));
        }
        i = i + 1;
    }
    assert(batch@.take(batch@.len() as int) =~= batch@);
    engine
}

/// Makes one instance and, if asked, holds it to one thread. `None` where it
/// cannot be made or refuses to be held.
pub fn make_instance<E: Engine, F: Fn() -> Option<E>>(make: &F, pin_single_thread: bool) -> (r:
    Option<E>)
    requires
        call_requires(*make, ()),
    ensures
        call_ensures(*make, (), None) && r is None || (!pin_single_thread && r is Some
            && call_ensures(*make, (), r)) || (pin_single_thread && exists|w: &mut E, held: bool|
            call_ensures(*make, (), Some(*w)) && #[trigger] call_ensures(
                E::set_threads,
                (w, 1usize),
                held,
            ) && r == if held {
                Some(*final(w))
            } else {
                None
            }),
{
    match make() {
        Some(engine) => {
            let mut engine = engine;
            if pin_single_thread && !engine.set_threads(1) {
                return None;
            }
            Some(engine)
        },
        None => None,
    }
}

/// Whether an engine is an instance that was made, held to one thread if asked,
/// and then warmed on these texts one by one.
pub open spec fn is_ready_instance<E: Engine, F: Fn() -> Option<E>>(
    make: F,
    warm: Seq<&str>,
    pin_single_thread: bool,
    engine: E,
) -> bool {
    exists|made: E| #[trigger]
        call_ensures(make_instance::<E, F>, (&make, pin_single_thread), Some(made)) && one_by_one(
            made,
            warm,
            engine,
        )
}

/// Makes one instance per thread, each held to one thread if asked, and then
/// warms each. `None` where one cannot be made or refuses to be held; then none
/// has encoded anything.
pub fn prepare_instances<E: Engine, F: Fn() -> Option<E>>(
    make: &F,
    warm: &[&str],
    threads: usize,
    pin_single_thread: bool,
) -> (r: Option<Vec<E>>)
    requires
        call_requires(*make, ()),
    ensures
        threads == 0 ==> r is Some,
        r is None ==> call_ensures(make_instance::<E, F>, (make, pin_single_thread), None),
        r matches Some(engines) ==> engines@.len() == threads && forall|k: int|
            0 <= k < threads ==> is_ready_instance::<E, F>(
                *make,
                warm@,
                pin_single_thread,
                #[trigger] engines@[k],
            ),
{
    let mut made: Vec<E> = Vec::new();
    let mut i: usize = 0;
    while i < threads
        invariant
            i <= threads,
            call_requires(*make, ()),
            made@.len() == i,
            forall|k: int|
                0 <= k < i ==> call_ensures(
                    make_instance::<E, F>,
                    (make, pin_single_thread),
                    Some(#[trigger] made@[k]),
                ),
        decreases threads - i,
    {
        match make_instance(make, pin_single_thread) {
            Some(engine) => {
                made.push(engine);
            },
            None => {
                return None;
            },
        }
        i = i + 1;
    }
    let mut engines: Vec<E> = Vec::new();
    while made.len() > 0
        invariant
            made@.len() + engines@.len() == threads,
            forall|k: int|
                0 <= k < made@.len() ==> call_ensures(
                    make_instance::<E, F>,
                    (make, pin_single_thread),
                    Some(#[trigger] made@[k]),
                ),
            forall|k: int|
                0 <= k < engines@.len() ==> is_ready_instance::<E, F>(
                    *make,
                    warm@,
                    pin_single_thread,
                    #[trigger] engines@[k],
                ),
        decreases made@.len(),
    {
        let ghost was = made@;
        let first = made.remove(0);
        assert(first == was[0]);
        assert forall|k: int| 0 <= k < made@.len() implies call_ensures(
            make_instance::<E, F>,
            (make, pin_single_thread),
            Some(#[trigger] made@[k]),
        ) by {
            assert(made@[k] == was[k + 1]);
        }
        let ghost start = first;
        let engine = encode_each(first, warm);
        assert(call_ensures(make_instance::<E, F>, (make, pin_single_thread), Some(start)));
        assert(is_ready_instance::<E, F>(*make, warm@, pin_single_thread, engine));
        engines.push(engine);
    }
    Some(engines)
}

/// Encodes the document that a worker has claimed, into an empty buffer. The
/// answer says whether there was one.
pub fn encode_claimed<E: Engine + ?Sized>(
    engine: &mut E,
    batch: &[&str],
    index: usize,
    buf: &mut Ids,
) -> (r: bool)
    ensures
        r <==> index < batch@.len(),
        !r ==> &*final(engine) == &*old(engine) && *final(buf) == *old(buf),
        r ==> exists|e: &mut E, ids: &mut Ids|
            &*e == &*old(engine) && &*final(e) == &*final(engine) && ids@.len() == 0
                && *final(ids) == *final(buf) && #[trigger] call_ensures(
                E::encode,
                (e, batch@[index as int], ids),
                (),
            ),
        r ==> final(engine).runs() == old(engine).runs().push(
            Run { text: batch@[index as int]@, given: Seq::empty(), ids: final(buf)@ },
        ),
        final(engine).decodes() == old(engine).decodes(),
{
    if index >= batch.len() {
        return false;
    }
    buf.clear();
    engine.encode(batch[index], buf);
    let _ = black_box(&*buf);
    true
}

// ---------------------------------------------------------------------------
// The sweep
// ---------------------------------------------------------------------------

/// Times one width once. `None` where an engine cannot be made or refuses.
///
/// A native width takes one engine and its own batch call. Independent instances
/// are made, warmed, and handed to `run` with the documents to encode.
pub fn time_width<E: Engine, F: Fn() -> Option<E>, R: Fn(Vec<E>, &[&str]) -> u64>(
    make: &F,
    run: &R,
    warm: &[&str],
    measured: &[&str],
    kind: ScalingKind,
    threads: usize,
    pin: bool,
    padding: Padding,
) -> (r: Option<u64>)
    requires
        call_requires(*make, ()),
        forall|engines: Vec<E>, batch: &[&str]| call_requires(*run, (engines, batch)),
    ensures
        kind == ScalingKind::NativeThreads ==> (r is None && call_ensures(*make, (), None))
            || exists|t: &mut E|
            call_ensures(*make, (), Some(*t)) && #[trigger] call_ensures(
                time_native_batch::<E>,
                (t, warm, measured, threads, padding),
                r,
            ),
        kind == ScalingKind::IndependentInstances && r is None ==> call_ensures(
            prepare_instances::<E, F>,
            (make, warm, threads, pin),
            None,
        ),
        kind == ScalingKind::IndependentInstances && r is Some ==> exists|
            engines: Vec<E>,
            nanos: u64,
        |
            call_ensures(prepare_instances::<E, F>, (make, warm, threads, pin), Some(engines))
                && #[trigger] call_ensures(*run, (engines, measured), nanos) && r == Some(nanos),
        kind == ScalingKind::IndependentInstances && threads == 0 ==> r is Some,
{
    match kind {
        ScalingKind::NativeThreads => {
            match make() {
                Some(mut engine) => time_native_batch(
                    &mut engine,
                    warm,
                    measured,
                    threads,
                    padding,
                ),
                None => None,
            }
        },
        ScalingKind::IndependentInstances => {
            let ready = prepare_instances(make, warm, threads, pin);
            let ghost prepared = ready;
            match ready {
                Some(engines) => {
                    assert(prepared == Some(engines));
                    let ghost handed = engines;
                    let spent: u64 = run(engines, measured);
                    assert(call_ensures(*run, (handed, measured), spent));
                    Some(spent)
                },
                None => None,
            }
        },
    }
}

/// Whether `r` is what timing this width once may answer.
pub open spec fn is_timing<E: Engine, F: Fn() -> Option<E>, R: Fn(Vec<E>, &[&str]) -> u64>(
    make: F,
    run: R,
    warm: &[&str],
    measured: &[&str],
    kind: ScalingKind,
    threads: usize,
    pin: bool,
    padding: Padding,
    r: Option<u64>,
) -> bool {
    call_ensures(
        time_width::<E, F, R>,
        (&make, &run, warm, measured, kind, threads, pin, padding),
        r,
    )
}

/// Whether a pace is the median of `reps` timings of a width.
pub open spec fn is_pace<E: Engine, F: Fn() -> Option<E>, R: Fn(Vec<E>, &[&str]) -> u64>(
    make: F,
    run: R,
    warm: &[&str],
    measured: &[&str],
    kind: ScalingKind,
    threads: usize,
    pin: bool,
    padding: Padding,
    reps: nat,
    pace: Middle<u64>,
) -> bool {
    exists|nanos: Seq<u64>|
        nanos.len() == reps && #[trigger] is_median(nanos, pace) && forall|j: int|
            0 <= j < reps ==> is_timing::<E, F, R>(
                make,
                run,
                warm,
                measured,
                kind,
                threads,
                pin,
                padding,
                Some(#[trigger] nanos[j]),
            )
}

/// Whether these are the points of timings of these widths: each width's pace is
/// the median of `reps` of them.
pub open spec fn timed_points<E: Engine, F: Fn() -> Option<E>, R: Fn(Vec<E>, &[&str]) -> u64>(
    make: F,
    run: R,
    warm: &[&str],
    measured: &[&str],
    kind: ScalingKind,
    widths: Seq<usize>,
    pin: bool,
    padding: Padding,
    reps: nat,
    bytes: usize,
    points: Seq<ThreadPoint>,
) -> bool {
    exists|paces: Seq<Middle<u64>>|
        paces.len() == widths.len() && #[trigger] are_points(widths, paces, bytes, points)
            && forall|k: int|
            0 <= k < widths.len() ==> is_pace::<E, F, R>(
                make,
                run,
                warm,
                measured,
                kind,
                widths[k],
                pin,
                padding,
                reps,
                #[trigger] paces[k],
            )
}

/// Whether one of these widths may be refused while it is timed.
pub open spec fn may_refuse<E: Engine, F: Fn() -> Option<E>, R: Fn(Vec<E>, &[&str]) -> u64>(
    make: F,
    run: R,
    warm: &[&str],
    measured: &[&str],
    kind: ScalingKind,
    widths: Seq<usize>,
    pin: bool,
    padding: Padding,
) -> bool {
    exists|k: int|
        0 <= k < widths.len() && is_timing::<E, F, R>(
            make,
            run,
            warm,
            measured,
            kind,
            #[trigger] widths[k],
            pin,
            padding,
            None,
        )
}

/// What a sweep answers once its plan stands. A refusal while timing, and nothing
/// else, leaves a planned sweep without points.
pub open spec fn follows_plan<E: Engine, F: Fn() -> Option<E>, R: Fn(Vec<E>, &[&str]) -> u64>(
    make: F,
    run: R,
    warm: &[&str],
    measured: &[&str],
    planned: Planned,
    padding: Padding,
    reps: nat,
    r: Option<Scaling>,
) -> bool {
    match planned {
        Planned::NoCell => r is None,
        Planned::Empty { kind } => is_empty_scaling(r, kind, padding),
        Planned::Run { kind, widths, pin } => {
            ||| is_empty_scaling(r, kind, padding) && may_refuse::<E, F, R>(
                make,
                run,
                warm,
                measured,
                kind,
                widths,
                pin,
                padding,
            )
            ||| r is Some && r->0.kind == kind && r->0.padding == padding && timed_points::<
                E,
                F,
                R,
            >(
                make,
                run,
                warm,
                measured,
                kind,
                widths,
                pin,
                padding,
                reps,
                total_bytes(batch_texts(measured@)) as usize,
                r->0.points@,
            )
        },
    }
}

/// What a sweep answers once a fresh engine has said whether it pads and whether
/// it fans batches out (`said`) and the counts were asked for.
pub open spec fn is_answered_sweep<
    E: Engine,
    F: Fn() -> Option<E>,
    R: Fn(Vec<E>, &[&str]) -> u64,
>(
    make: F,
    run: R,
    docs: Seq<Seq<char>>,
    counts: Seq<usize>,
    reps: nat,
    padding: Padding,
    mode: ScalingMode,
    said: Option<bool>,
    r: Option<Scaling>,
) -> bool {
    match said {
        None => r is None,
        Some(native_batch) => exists|yes: Seq<bool>, warm: &[&str], measured: &[&str]|
            {
                &&& are_answers::<E, F>(make, counts, yes)
                &&& batch_texts(warm@) == warm_of(docs)
                &&& batch_texts(measured@) == measured_of(docs)
                &&& #[trigger] follows_plan::<E, F, R>(
                    make,
                    run,
                    warm,
                    measured,
                    plan_of(mode, true, chosen(counts, yes), native_batch, counts, padding),
                    padding,
                    reps,
                    r,
                )
            },
    }
}

/// What a sweep answers. Too little text or no repetition leaves it empty. Else a
/// fresh engine is asked; where none can be made there is no sweep.
pub open spec fn is_sweep<E: Engine, F: Fn() -> Option<E>, R: Fn(Vec<E>, &[&str]) -> u64>(
    make: F,
    run: R,
    docs: Seq<Seq<char>>,
    counts: Seq<usize>,
    reps: nat,
    padding: Padding,
    mode: ScalingMode,
    r: Option<Scaling>,
) -> bool {
    if docs.len() < 2 || reps == 0 {
        is_empty_scaling(r, ScalingKind::IndependentInstances, padding)
    } else {
        ||| call_ensures(make, (), None) && r is None
        ||| exists|p: &mut E, said: Option<bool>|
            call_ensures(make, (), Some(*p)) && #[trigger] call_ensures(
                probe::<E>,
                (p, padding),
                said,
            ) && is_answered_sweep::<E, F, R>(
                make,
                run,
                docs,
                counts,
                reps,
                padding,
                mode,
                said,
                r,
            )
    }
}

/// `measure_scaling_with_mode` with the engine's own choice of kind.
pub fn measure_scaling<E: Engine, F: Fn() -> Option<E>, R: Fn(Vec<E>, &[&str]) -> u64>(
    make: &F,
    run: &R,
    chunks: &[String],
    counts: &[usize],
    reps: usize,
    padding: Padding,
) -> (r: Option<Scaling>)
    requires
        call_requires(*make, ()),
        forall|engines: Vec<E>, batch: &[&str]| call_requires(*run, (engines, batch)),
        total_bytes(contents(chunks@)) <= usize::MAX,
    ensures
        is_sweep::<E, F, R>(
            *make,
            *run,
            contents(chunks@),
            counts@,
            reps as nat,
            padding,
            ScalingMode::Auto,
            r,
        ),
{
    measure_scaling_with_mode(make, run, chunks, counts, reps, padding, ScalingMode::Auto)
}

/// Times every planned width `reps` times. The first refusal ends it, and what
/// was timed until then is dropped.
pub fn run_plan<E: Engine, F: Fn() -> Option<E>, R: Fn(Vec<E>, &[&str]) -> u64>(
    make: &F,
    run: &R,
    warm: &[&str],
    measured: &[&str],
    kind: ScalingKind,
    widths: &[usize],
    pin: bool,
    padding: Padding,
    reps: usize,
    bytes: usize,
) -> (r: Vec<ThreadPoint>)
    requires
        reps > 0,
        call_requires(*make, ()),
        forall|engines: Vec<E>, batch: &[&str]| call_requires(*run, (engines, batch)),
    ensures
        (r@.len() == 0 && may_refuse::<E, F, R>(
            *make,
            *run,
            warm,
            measured,
            kind,
            widths@,
            pin,
            padding,
        )) || timed_points::<E, F, R>(
            *make,
            *run,
            warm,
            measured,
            kind,
            widths@,
            pin,
            padding,
            reps as nat,
            bytes,
            r@,
        ),
{
    let mut paces: Vec<Middle<u64>> = Vec::new();
    let mut w: usize = 0;
    while w < widths.len()
        invariant
            w <= widths@.len(),
            reps > 0,
            call_requires(*make, ()),
            forall|engines: Vec<E>, batch: &[&str]| call_requires(*run, (engines, batch)),
            paces@.len() == w,
            forall|k: int|
                0 <= k < w ==> is_pace::<E, F, R>(
                    *make,
                    *run,
                    warm,
                    measured,
                    kind,
                    widths@[k],
                    pin,
                    padding,
                    reps as nat,
                    #[trigger] paces@[k],
                ),
        decreases widths@.len() - w,
    {
        let mut samples: Vec<u64> = Vec::new();
        let mut rep: usize = 0;
        while rep < reps
            invariant
                rep <= reps,
                w < widths@.len(),
                call_requires(*make, ()),
                forall|engines: Vec<E>, batch: &[&str]| call_requires(*run, (engines, batch)),
                samples@.len() == rep,
                forall|j: int|
                    0 <= j < rep ==> is_timing::<E, F, R>(
                        *make,
                        *run,
                        warm,
                        measured,
                        kind,
                        widths@[w as int],
                        pin,
                        padding,
                        Some(#[trigger] samples@[j]),
                    ),
            decreases reps - rep,
        {
            let threads: usize = widths[w];
            let spent = time_width(make, run, warm, measured, kind, threads, pin, padding);
            assert(is_timing::<E, F, R>(
                *make,
                *run,
                warm,
                measured,
                kind,
                widths@[w as int],
                pin,
                padding,
                spent,
            ));
            match spent {
                Some(nanos) => {
                    samples.push(nanos);
                },
                None => {
                    return Vec::new();
                },
            }
            rep = rep + 1;
        }
        let pace = median(samples.as_slice());
        assert(is_median(samples@, pace));
        paces.push(pace);
        w = w + 1;
    }
    let list = points(widths, paces.as_slice(), bytes);
    assert(are_points(widths@, paces@, bytes, list@));
    list
}

/// Sweeps an engine over thread counts.
///
/// `make` builds an engine. `run` takes the warmed instances of one width and
/// the documents, has every document encoded once by one of them on a thread of
/// its own, and answers with the nanoseconds.
pub fn measure_scaling_with_mode<
    E: Engine,
    F: Fn() -> Option<E>,
    R: Fn(Vec<E>, &[&str]) -> u64,
>(
    make: &F,
    run: &R,
    chunks: &[String],
    counts: &[usize],
    reps: usize,
    padding: Padding,
    mode: ScalingMode,
) -> (r: Option<Scaling>)
    requires
        call_requires(*make, ()),
        forall|engines: Vec<E>, batch: &[&str]| call_requires(*run, (engines, batch)),
        total_bytes(contents(chunks@)) <= usize::MAX,
    ensures
        is_sweep::<E, F, R>(
            *make,
            *run,
            contents(chunks@),
            counts@,
            reps as nat,
            padding,
            mode,
            r,
        ),
{
    if chunks.len() < 2 || reps == 0 {
        return Some(Scaling::empty(ScalingKind::IndependentInstances, padding));
    }
    let ghost docs = contents(chunks@);
    let (warm, measured) = split(chunks);
    proof {
        lemma_measured_bytes(docs);
    }
    let bytes: usize = batch_bytes(&measured);
    let said = match make() {
        Some(engine) => {
            let mut engine = engine;
            probe(&mut engine, padding)
        },
        None => {
            return None;
        },
    };
    let native_batch = match said {
        Some(native_batch) => native_batch,
        None => {
            return None;
        },
    };
    let settable = settable_widths(make, counts);
    let warm_slice: &[&str] = warm.as_slice();
    let measured_slice: &[&str] = measured.as_slice();
    let ghost yes = choose|yes: Seq<bool>|
        are_answers::<E, F>(*make, counts@, yes) && settable@ == #[trigger] chosen(counts@, yes);
    let ghost planned = plan_of(mode, true, chosen(counts@, yes), native_batch, counts@, padding);
    let r = match plan(mode, true, settable, native_batch, counts, padding) {
        Plan::NoCell => None,
        Plan::Empty { kind } => Some(Scaling::empty(kind, padding)),
        Plan::Run { kind, widths, pin } => {
            let points = run_plan(
                make,
                run,
                warm_slice,
                measured_slice,
                kind,
                widths.as_slice(),
                pin,
                padding,
                reps,
                bytes,
            );
            Some(Scaling { kind, padding, points })
        },
    };
    assert(follows_plan::<E, F, R>(
        *make,
        *run,
        warm_slice,
        measured_slice,
        planned,
        padding,
        reps as nat,
        r,
    ));
    assert(is_answered_sweep::<E, F, R>(
        *make,
        *run,
        docs,
        counts@,
        reps as nat,
        padding,
        mode,
        said,
        r,
    ));
    r
}

// ---------------------------------------------------------------------------
// What a sweep says of an engine
// ---------------------------------------------------------------------------

/// Whether engines can always be made and all answer alike: to the padding with
/// `pads`, about their batches with `native_batch`, and to a width by `takes`.
pub open spec fn answers_alike<E: Engine, F: Fn() -> Option<E>>(
    make: F,
    padding: Padding,
    pads: bool,
    native_batch: bool,
    takes: spec_fn(usize) -> bool,
) -> bool {
    &&& !call_ensures(make, (), None)
    &&& forall|p: &mut E, said: Option<bool>|
        call_ensures(make, (), Some(*p)) && #[trigger] call_ensures(
            probe::<E>,
            (p, padding),
            said,
        ) ==> said == if pads {
            Some(native_batch)
        } else {
            None
        }
    &&& forall|n: usize, yes: bool| #[trigger]
        call_ensures(takes_width::<E, F>, (&make, n), yes) ==> yes == takes(n)
}

proof fn lemma_chosen_filter<E: Engine, F: Fn() -> Option<E>>(
    make: F,
    counts: Seq<usize>,
    yes: Seq<bool>,
    takes: spec_fn(usize) -> bool,
)
    requires
        forall|n: usize, b: bool| #[trigger]
            call_ensures(takes_width::<E, F>, (&make, n), b) ==> b == takes(n),
        yes.len() >= counts.len(),
        forall|k: int|
            0 <= k < counts.len() ==> call_ensures(
                takes_width::<E, F>,
                (&make, counts[k]),
                #[trigger] yes[k],
            ),
    ensures
        chosen(counts, yes) == counts.filter(takes),
    decreases counts.len(),
{
    reveal(Seq::filter);
    if counts.len() > 0 {
        let less = counts.drop_last();
        assert forall|k: int| 0 <= k < less.len() implies call_ensures(
            takes_width::<E, F>,
            (&make, less[k]),
            #[trigger] yes[k],
        ) by {
            assert(less[k] == counts[k]);
        }
        lemma_chosen_filter::<E, F>(make, less, yes, takes);
        let last = counts.len() - 1;
        assert(call_ensures(takes_width::<E, F>, (&make, counts[last]), yes[last]));
    }
}

/// A sweep follows the plan that the engine's own answers make.
pub proof fn law_sweep_follows_the_answers<
    E: Engine,
    F: Fn() -> Option<E>,
    R: Fn(Vec<E>, &[&str]) -> u64,
>(
    make: F,
    run: R,
    docs: Seq<Seq<char>>,
    counts: Seq<usize>,
    reps: nat,
    padding: Padding,
    mode: ScalingMode,
    pads: bool,
    native_batch: bool,
    takes: spec_fn(usize) -> bool,
    r: Option<Scaling>,
)
    requires
        docs.len() >= 2,
        reps > 0,
        answers_alike::<E, F>(make, padding, pads, native_batch, takes),
        is_sweep::<E, F, R>(make, run, docs, counts, reps, padding, mode, r),
    ensures
        !pads ==> r is None,
        pads ==> exists|warm: &[&str], measured: &[&str]|
            batch_texts(warm@) == warm_of(docs) && batch_texts(measured@) == measured_of(docs)
                && #[trigger] follows_plan::<E, F, R>(
                make,
                run,
                warm,
                measured,
                plan_of(mode, pads, counts.filter(takes), native_batch, counts, padding),
                padding,
                reps,
                r,
            ),
{
    let (p, said) = choose|p: &mut E, said: Option<bool>|
        call_ensures(make, (), Some(*p)) && #[trigger] call_ensures(probe::<E>, (p, padding), said)
            && is_answered_sweep::<E, F, R>(make, run, docs, counts, reps, padding, mode, said, r);
    if pads {
        let (yes, warm, measured) = choose|yes: Seq<bool>, warm: &[&str], measured: &[&str]|
            {
                &&& are_answers::<E, F>(make, counts, yes)
                &&& batch_texts(warm@) == warm_of(docs)
                &&& batch_texts(measured@) == measured_of(docs)
                &&& #[trigger] follows_plan::<E, F, R>(
                    make,
                    run,
                    warm,
                    measured,
                    plan_of(mode, true, chosen(counts, yes), native_batch, counts, padding),
                    padding,
                    reps,
                    r,
                )
            };
        lemma_chosen_filter::<E, F>(make, counts, yes, takes);
    }
}

/// There is no sweep exactly where the engine does not pad, or where it would
/// have to be padded without driving its own batch.
pub proof fn law_when_there_is_no_sweep<
    E: Engine,
    F: Fn() -> Option<E>,
    R: Fn(Vec<E>, &[&str]) -> u64,
>(
    make: F,
    run: R,
    docs: Seq<Seq<char>>,
    counts: Seq<usize>,
    reps: nat,
    padding: Padding,
    mode: ScalingMode,
    pads: bool,
    native_batch: bool,
    takes: spec_fn(usize) -> bool,
    r: Option<Scaling>,
)
    requires
        docs.len() >= 2,
        reps > 0,
        answers_alike::<E, F>(make, padding, pads, native_batch, takes),
        is_sweep::<E, F, R>(make, run, docs, counts, reps, padding, mode, r),
    ensures
        r is None <==> !pads || (padding == Padding::Longest && ((mode == ScalingMode::Auto
            && counts.filter(takes).len() == 0 && !native_batch) || (mode
            == ScalingMode::IndependentInstances && !(native_batch && !counts.filter(
            takes,
        ).contains(1))))),
{
    law_sweep_follows_the_answers::<E, F, R>(
        make,
        run,
        docs,
        counts,
        reps,
        padding,
        mode,
        pads,
        native_batch,
        takes,
        r,
    );
}

/// Whether none of these widths is refused while it is timed.
pub open spec fn never_refuses<E: Engine, F: Fn() -> Option<E>, R: Fn(Vec<E>, &[&str]) -> u64>(
    make: F,
    run: R,
    kind: ScalingKind,
    widths: Seq<usize>,
    pin: bool,
    padding: Padding,
) -> bool {
    forall|warm: &[&str], measured: &[&str]|
        !(#[trigger] may_refuse::<E, F, R>(
            make,
            run,
            warm,
            measured,
            kind,
            widths,
            pin,
            padding,
        ))
}

/// The widths of a list of points.
pub open spec fn widths_of(points: Seq<ThreadPoint>) -> Seq<usize> {
    points.map_values(|p: ThreadPoint| p.threads)
}

/// Where nothing refuses, a sweep that was planned has its kind and one point per
/// width, in rising width whatever order they came in, and every point has a base
/// exactly where one thread is among them.
pub proof fn law_sweep_points<
    E: Engine,
    F: Fn() -> Option<E>,
    R: Fn(Vec<E>, &[&str]) -> u64,
>(
    make: F,
    run: R,
    docs: Seq<Seq<char>>,
    counts: Seq<usize>,
    reps: nat,
    padding: Padding,
    mode: ScalingMode,
    native_batch: bool,
    takes: spec_fn(usize) -> bool,
    kind: ScalingKind,
    widths: Seq<usize>,
    pin: bool,
    r: Option<Scaling>,
)
    requires
        docs.len() >= 2,
        reps > 0,
        counts.len() <= usize::MAX,
        answers_alike::<E, F>(make, padding, true, native_batch, takes),
        plan_of(mode, true, counts.filter(takes), native_batch, counts, padding) == (Planned::Run {
            kind,
            widths,
            pin,
        }),
        never_refuses::<E, F, R>(make, run, kind, widths, pin, padding),
        is_sweep::<E, F, R>(make, run, docs, counts, reps, padding, mode, r),
    ensures
        r is Some && r->0.kind == kind && r->0.padding == padding,
        widths_of(r->0.points@).to_multiset() == widths.to_multiset(),
        r->0.points@.len() == widths.len(),
        forall|i: int, j: int|
            0 <= i < j < r->0.points@.len() ==> #[trigger] r->0.points@[i].threads
                <= #[trigger] r->0.points@[j].threads,
        forall|i: int|
            0 <= i < r->0.points@.len() ==> ((#[trigger] r->0.points@[i]).base is Some
                <==> widths.contains(1)),
        forall|i: int|
            0 <= i < r->0.points@.len() ==> (#[trigger] r->0.points@[i]).bytes == total_bytes(
                measured_of(docs),
            ) as usize,
{
    law_sweep_follows_the_answers::<E, F, R>(
        make,
        run,
        docs,
        counts,
        reps,
        padding,
        mode,
        true,
        native_batch,
        takes,
        r,
    );
    counts.lemma_filter_len(takes);
    let (warm, measured) = choose|warm: &[&str], measured: &[&str]|
        batch_texts(warm@) == warm_of(docs) && batch_texts(measured@) == measured_of(docs)
            && #[trigger] follows_plan::<E, F, R>(
            make,
            run,
            warm,
            measured,
            plan_of(mode, true, counts.filter(takes), native_batch, counts, padding),
            padding,
            reps,
            r,
        );
    assert(!may_refuse::<E, F, R>(make, run, warm, measured, kind, widths, pin, padding));
    let bytes = total_bytes(batch_texts(measured@)) as usize;
    let points = r->0.points@;
    let paces = choose|paces: Seq<Middle<u64>>|
        paces.len() == widths.len() && #[trigger] are_points(widths, paces, bytes, points);
    law_points_in_order(widths, paces, bytes, points);
    let order = choose|order: Seq<usize>| #[trigger]
        in_order(widths, order) && points == Seq::new(
            widths.len(),
            |i: int|
                ThreadPoint {
                    threads: widths[order[i] as int],
                    bytes,
                    pace: paces[order[i] as int],
                    base: base_of(widths, paces),
                },
        );
    law_order_rearranges(widths, order);
    assert(widths_of(points) =~= along(widths, order));
}

/// Whether a sweep is complete: of this kind and padding, with one point for each
/// of these widths, in rising width, every one over the bytes of the documents
/// that were measured, and compared with one thread where that is among them.
pub open spec fn is_curve(
    s: Scaling,
    kind: ScalingKind,
    padding: Padding,
    widths: Seq<usize>,
    measured: Seq<Seq<char>>,
) -> bool {
    let points = s.points@;
    &&& s.kind == kind
    &&& s.padding == padding
    &&& points.len() == widths.len()
    &&& points.map_values(|p: ThreadPoint| p.threads).to_multiset() == widths.to_multiset()
    &&& forall|i: int, j: int|
        0 <= i < j < points.len() ==> (#[trigger] points[i]).threads <= (
        #[trigger] points[j]).threads
    &&& forall|i: int|
        0 <= i < points.len() ==> ((#[trigger] points[i]).base is Some <==> widths.contains(1))
    &&& forall|i: int|
        0 <= i < points.len() ==> (#[trigger] points[i]).bytes == encode_utf8(
            measured.flatten(),
        ).len()
}

/// Asked for independent instances without padding, an engine that does not fan
/// batches out, or that can be held to one thread, gets one point for every width
/// that was asked for, whatever widths it takes itself, as long as an instance can
/// be made.
pub proof fn law_instances_have_every_width<
    E: Engine,
    F: Fn() -> Option<E>,
    R: Fn(Vec<E>, &[&str]) -> u64,
>(
    make: F,
    run: R,
    chunks: &[String],
    counts: &[usize],
    reps: usize,
    native_batch: bool,
    takes: spec_fn(usize) -> bool,
    r: Option<Scaling>,
)
    requires
        chunks@.len() >= 2,
        encode_utf8(contents(chunks@).flatten()).len() <= usize::MAX,
        reps > 0,
        counts@.len() > 0,
        call_ensures(
            measure_scaling_with_mode::<E, F, R>,
            (
                &make,
                &run,
                chunks,
                counts,
                reps,
                Padding::Off,
                ScalingMode::IndependentInstances,
            ),
            r,
        ),
        answers_alike::<E, F>(make, Padding::Off, true, native_batch, takes),
        native_batch ==> counts@.contains(1) && takes(1),
        forall|pin: bool| !call_ensures(make_instance::<E, F>, (&make, pin), None),
    ensures
        r is Some,
        is_curve(
            r->0,
            ScalingKind::IndependentInstances,
            Padding::Off,
            counts@,
            measured_of(contents(chunks@)),
        ),
{
    let docs = contents(chunks@);
    let kind = ScalingKind::IndependentInstances;
    let pin = counts@.filter(takes).contains(1);
    if native_batch {
        let k = choose|k: int| 0 <= k < counts@.len() && counts@[k] == 1;
        counts@.lemma_filter_contains(takes, k);
    }
    assert(counts@.len() == counts.len());
    assert forall|warm: &[&str], measured: &[&str]|
        !(#[trigger] may_refuse::<E, F, R>(
            make,
            run,
            warm,
            measured,
            kind,
            counts@,
            pin,
            Padding::Off,
        )) by {
        if may_refuse::<E, F, R>(make, run, warm, measured, kind, counts@, pin, Padding::Off) {
            let k = choose|k: int|
                0 <= k < counts@.len() && is_timing::<E, F, R>(
                    make,
                    run,
                    warm,
                    measured,
                    kind,
                    #[trigger] counts@[k],
                    pin,
                    Padding::Off,
                    None,
                );
            assert(call_ensures(
                prepare_instances::<E, F>,
                (&make, warm, counts@[k], pin),
                None,
            ));
            assert(call_ensures(make_instance::<E, F>, (&make, pin), None));
        }
    }
    law_sweep_points::<E, F, R>(
        make,
        run,
        docs,
        counts@,
        reps as nat,
        Padding::Off,
        ScalingMode::IndependentInstances,
        native_batch,
        takes,
        kind,
        counts@,
        pin,
        r,
    );
    lemma_measured_bytes(docs);
    law_bytes_are_utf8(docs);
    law_bytes_are_utf8(measured_of(docs));
}

/// An engine that takes some of the widths, asked for its own threads or left the
/// choice, gets one point for each width it takes, padded or not, unless it
/// refuses while it is timed; and then the curve is empty, never a part of one.
pub proof fn law_native_threads_have_the_widths_they_take<
    E: Engine,
    F: Fn() -> Option<E>,
    R: Fn(Vec<E>, &[&str]) -> u64,
>(
    make: F,
    run: R,
    chunks: &[String],
    counts: &[usize],
    reps: usize,
    padding: Padding,
    mode: ScalingMode,
    native_batch: bool,
    takes: spec_fn(usize) -> bool,
    r: Option<Scaling>,
)
    requires
        chunks@.len() >= 2,
        encode_utf8(contents(chunks@).flatten()).len() <= usize::MAX,
        reps > 0,
        mode == ScalingMode::Auto || mode == ScalingMode::NativeThreads,
        counts@.filter(takes).len() > 0 || native_batch,
        call_ensures(
            measure_scaling_with_mode::<E, F, R>,
            (&make, &run, chunks, counts, reps, padding, mode),
            r,
        ),
        answers_alike::<E, F>(make, padding, true, native_batch, takes),
    ensures
        r is Some && r->0.kind == ScalingKind::NativeThreads && r->0.padding == padding,
        r->0.points@.len() == 0 || is_curve(
            r->0,
            ScalingKind::NativeThreads,
            padding,
            if counts@.filter(takes).len() > 0 {
                counts@.filter(takes)
            } else {
                seq![0]
            },
            measured_of(contents(chunks@)),
        ),
        never_refuses::<E, F, R>(
            make,
            run,
            ScalingKind::NativeThreads,
            if counts@.filter(takes).len() > 0 {
                counts@.filter(takes)
            } else {
                seq![0]
            },
            false,
            padding,
        ) ==> r->0.points@.len() > 0,
{
    let docs = contents(chunks@);
    let kind = ScalingKind::NativeThreads;
    let taken = counts@.filter(takes);
    let widths = if taken.len() > 0 {
        taken
    } else {
        seq![0]
    };
    assert(counts@.len() == counts.len());
    counts@.lemma_filter_len(takes);
    law_sweep_follows_the_answers::<E, F, R>(
        make,
        run,
        docs,
        counts@,
        reps as nat,
        padding,
        mode,
        true,
        native_batch,
        takes,
        r,
    );
    let (warm, measured) = choose|warm: &[&str], measured: &[&str]|
        batch_texts(warm@) == warm_of(docs) && batch_texts(measured@) == measured_of(docs)
            && #[trigger] follows_plan::<E, F, R>(
            make,
            run,
            warm,
            measured,
            plan_of(mode, true, taken, native_batch, counts@, padding),
            padding,
            reps as nat,
            r,
        );
    let bytes = total_bytes(batch_texts(measured@)) as usize;
    lemma_measured_bytes(docs);
    law_bytes_are_utf8(docs);
    law_bytes_are_utf8(measured_of(docs));
    let points = r->0.points@;
    if timed_points::<E, F, R>(
        make,
        run,
        warm,
        measured,
        kind,
        widths,
        false,
        padding,
        reps as nat,
        bytes,
        points,
    ) {
        let paces = choose|paces: Seq<Middle<u64>>|
            paces.len() == widths.len() && #[trigger] are_points(widths, paces, bytes, points);
        law_points_in_order(widths, paces, bytes, points);
        let order = choose|order: Seq<usize>| #[trigger]
            in_order(widths, order) && points == Seq::new(
                widths.len(),
                |i: int|
                    ThreadPoint {
                        threads: widths[order[i] as int],
                        bytes,
                        pace: paces[order[i] as int],
                        base: base_of(widths, paces),
                    },
            );
        law_order_rearranges(widths, order);
        assert(points.map_values(|p: ThreadPoint| p.threads) =~= along(widths, order));
    } else {
        assert(may_refuse::<E, F, R>(
            make,
            run,
            warm,
            measured,
            kind,
            widths,
            false,
            padding,
        ));
    }
}

/// Too little text, or no repetition, leaves an empty sweep, and nothing is asked
/// of any engine.
pub proof fn law_sweep_needs_text<E: Engine, F: Fn() -> Option<E>, R: Fn(Vec<E>, &[&str]) -> u64>(
    make: F,
    run: R,
    chunks: &[String],
    counts: &[usize],
    reps: usize,
    padding: Padding,
    mode: ScalingMode,
    r: Option<Scaling>,
)
    requires
        chunks@.len() < 2 || reps == 0,
        call_ensures(
            measure_scaling_with_mode::<E, F, R>,
            (&make, &run, chunks, counts, reps, padding, mode),
            r,
        ),
    ensures
        r is Some && r->0.kind == ScalingKind::IndependentInstances && r->0.padding == padding
            && r->0.points@.len() == 0,
{
}

/// A timed engine was handed the documents to warm on first and the documents to
/// measure after them, all in order, and nothing else. One that refused was handed
/// nothing.
pub proof fn law_native_timing_hands_over<E: Engine + ?Sized>(
    before: &E,
    after: &E,
    warm: &[&str],
    measured: &[&str],
    threads: usize,
    padding: Padding,
    r: Option<u64>,
)
    requires
        exists|e: &mut E|
            &*e == before && &*final(e) == after && #[trigger] call_ensures(
                time_native_batch::<E>,
                (e, warm, measured, threads, padding),
                r,
            ),
    ensures
        r is None ==> after.runs() == before.runs(),
        r is Some ==> after.runs().len() == before.runs().len() + warm@.len() + measured@.len(),
        r is Some ==> forall|k: int|
            0 <= k < before.runs().len() ==> #[trigger] after.runs()[k] == before.runs()[k],
        r is Some ==> forall|k: int|
            0 <= k < warm@.len() ==> after.runs()[before.runs().len() + k].text == (
            #[trigger] warm@[k])@,
        r is Some ==> forall|k: int|
            0 <= k < measured@.len() ==> after.runs()[before.runs().len() + warm@.len() + k].text
                == (#[trigger] measured@[k])@,
{
    if r is Some {
        let list = batch_texts(warm@) + batch_texts(measured@);
        assert(appended(before.runs(), after.runs(), list));
        assert forall|k: int| 0 <= k < warm@.len() implies after.runs()[before.runs().len()
            + k].text == (#[trigger] warm@[k])@ by {
            assert(list[k] == warm@[k]@);
        }
        assert forall|k: int| 0 <= k < measured@.len() implies after.runs()[before.runs().len()
            + warm@.len() + k].text == (#[trigger] measured@[k])@ by {
            assert(list[warm@.len() + k] == measured@[k]@);
            assert(after.runs()[before.runs().len() + (warm@.len() + k)].text == list[warm@.len()
                + k]);
        }
        assert forall|k: int| 0 <= k < before.runs().len() implies #[trigger] after.runs()[k]
            == before.runs()[k] by {
            assert(after.runs()[k] == before.runs()[k]);
        }
    }
}

/// Every instance that was made ready has last encoded the documents to warm on,
/// each once, in order and into an empty buffer; there is one instance per
/// thread.
pub proof fn law_instances_are_warm<E: Engine, F: Fn() -> Option<E>>(
    make: F,
    warm: &[&str],
    threads: usize,
    pin: bool,
    engines: Vec<E>,
    k: int,
    d: int,
)
    requires
        call_ensures(prepare_instances::<E, F>, (&make, warm, threads, pin), Some(engines)),
        0 <= k < engines@.len(),
        0 <= d < warm@.len(),
    ensures
        engines@.len() == threads,
        ({
            let runs = engines@[k].runs();
            let run = runs[runs.len() - warm@.len() + d];
            runs.len() >= warm@.len() && run.text == warm@[d]@ && run.given.len() == 0
        }),
{
    let engine = engines@[k];
    assert(is_ready_instance::<E, F>(make, warm@, pin, engine));
    let made = choose|made: E| #[trigger]
        call_ensures(make_instance::<E, F>, (&make, pin), Some(made)) && one_by_one(
            made,
            warm@,
            engine,
        );
    law_one_by_one(made, warm@, engine);
    let at = made.runs().len() + d;
    assert(batch_texts(warm@)[d] == warm@[d]@);
    assert(engine.runs()[made.runs().len() + d].text == batch_texts(warm@)[d]);
    assert(engine.runs()[at].given.len() == 0);
}

/// A worker that claims a document encodes it into an empty buffer, and one that claims
/// past the last does nothing and says so.
pub proof fn law_claims_are_encoded<E: Engine + ?Sized>(
    before: &E,
    after: &E,
    batch: &[&str],
    index: usize,
    given: Ids,
    got: Ids,
    r: bool,
)
    requires
        exists|e: &mut E, buf: &mut Ids|
            &*e == before && &*final(e) == after && *buf == given && *final(buf) == got
                && #[trigger] call_ensures(encode_claimed::<E>, (e, batch, index, buf), r),
    ensures
        r <==> index < batch@.len(),
        !r ==> after == before && got == given,
        r ==> {
            let run = after.runs().last();
            &&& after.runs().len() == before.runs().len() + 1
            &&& after.runs().drop_last() == before.runs()
            &&& run.text == batch@[index as int]@
            &&& run.given.len() == 0
            &&& run.ids == got@
        },
        after.decodes() == before.decodes(),
{
    if r {
        assert(after.runs().drop_last() =~= before.runs());
    }
}

/// The widths an engine takes are those that it says yes to when it is asked, in the order
/// in which they were asked.
pub proof fn law_settable_widths_are_those_taken<E: Engine, F: Fn() -> Option<E>>(
    make: &F,
    counts: &[usize],
    r: Vec<usize>,
)
    requires
        call_ensures(settable_widths::<E, F>, (make, counts), r),
    ensures
        exists|yes: Seq<bool>|
            are_answers::<E, F>(*make, counts@, yes) && r@ == (#[trigger] counts@.zip_with(
                yes,
            )).filter(|p: (usize, bool)| p.1).map_values(|p: (usize, bool)| p.0),
{
    let yes = choose|yes: Seq<bool>|
        are_answers::<E, F>(*make, counts@, yes) && r@ == #[trigger] chosen(counts@, yes);
    lemma_chosen_zip(counts@, yes);
    let all = counts@.zip_with(yes);
    assert(r@ == all.filter(|p: (usize, bool)| p.1).map_values(|p: (usize, bool)| p.0));
}

proof fn lemma_chosen_zip(counts: Seq<usize>, yes: Seq<bool>)
    requires
        yes.len() == counts.len(),
    ensures
        chosen(counts, yes) == counts.zip_with(yes).filter(|p: (usize, bool)| p.1).map_values(
            |p: (usize, bool)| p.0,
        ),
    decreases counts.len(),
{
    reveal(Seq::filter);
    let all = counts.zip_with(yes);
    let taken = |p: (usize, bool)| p.1;
    let width = |p: (usize, bool)| p.0;
    if counts.len() > 0 {
        let (fewer, less) = (counts.drop_last(), yes.drop_last());
        lemma_chosen_zip(fewer, less);
        lemma_chosen_prefix(fewer, yes, less);
        assert(all.drop_last() =~= fewer.zip_with(less));
        assert(all.last() == (counts.last(), yes.last()));
        let front = fewer.zip_with(less).filter(taken);
        if yes.last() {
            assert(front.push(all.last()).map_values(width) =~= front.map_values(width).push(
                counts.last(),
            ));
        }
    } else {
        assert(all.filter(taken).map_values(width) =~= Seq::empty());
    }
}

/// An engine that pads as asked answers whether it fans batches out, and one that does not
/// answers nothing; being asked encodes and decodes nothing.
pub proof fn law_probes_ask_for_the_padding<E: Engine + ?Sized>(
    before: &E,
    after: &E,
    padding: Padding,
    r: Option<bool>,
    pads: spec_fn(Padding) -> bool,
    native_batch: bool,
)
    requires
        exists|e: &mut E|
            &*e == before && &*final(e) == after && #[trigger] call_ensures(
                probe::<E>,
                (e, padding),
                r,
            ),
        forall|p: &mut E, q: Padding, yes: bool| #[trigger]
            call_ensures(E::set_padding, (p, q), yes) ==> yes == pads(q),
        forall|b: &E, yes: bool| #[trigger]
            call_ensures(E::has_native_batch, (b,), yes) ==> yes == native_batch,
    ensures
        r is Some <==> pads(padding),
        r is Some ==> r->0 == native_batch,
        after.runs() == before.runs() && after.decodes() == before.decodes(),
{
}

/// A width is taken where an engine can be made and takes it.
pub proof fn law_widths_need_an_engine<E: Engine, F: Fn() -> Option<E>>(
    make: &F,
    threads: usize,
    r: bool,
    takes: spec_fn(usize) -> bool,
)
    requires
        call_ensures(takes_width::<E, F>, (make, threads), r),
        forall|w: &mut E, n: usize, yes: bool| #[trigger]
            call_ensures(E::set_threads, (w, n), yes) ==> yes == takes(n),
    ensures
        r ==> takes(threads),
        !call_ensures(*make, (), None) ==> r == takes(threads),
        (forall|e: E| !#[trigger] call_ensures(*make, (), Some(e))) ==> !r,
{
}

/// An engine is ready where it takes the width, if one is asked for, and pads as asked.
pub proof fn law_ready_engines_take_width_and_padding<E: Engine + ?Sized>(
    before: &E,
    after: &E,
    threads: usize,
    padding: Padding,
    r: bool,
    takes: spec_fn(usize) -> bool,
    pads: spec_fn(Padding) -> bool,
)
    requires
        exists|e: &mut E|
            &*e == before && &*final(e) == after && #[trigger] call_ensures(
                prepare::<E>,
                (e, threads, padding),
                r,
            ),
        forall|w: &mut E, n: usize, yes: bool| #[trigger]
            call_ensures(E::set_threads, (w, n), yes) ==> yes == takes(n),
        forall|p: &mut E, q: Padding, yes: bool| #[trigger]
            call_ensures(E::set_padding, (p, q), yes) ==> yes == pads(q),
    ensures
        r <==> (threads == 0 || takes(threads)) && pads(padding),
        after.runs() == before.runs() && after.decodes() == before.decodes(),
{
}

/// A batch is timed after another has warmed the engine: the texts of the one are handed
/// over before those of the other, all in order, and none besides.
pub proof fn law_batches_are_timed_warm<E: Engine + ?Sized>(
    before: &E,
    after: &E,
    warm: &[&str],
    measured: &[&str],
    r: u64,
    k: int,
)
    requires
        exists|e: &mut E|
            &*e == before && &*final(e) == after && #[trigger] call_ensures(
                time_batches::<E>,
                (e, warm, measured),
                r,
            ),
    ensures
        ({
            let start = before.runs().len() as int;
            let runs = after.runs();
            &&& runs.len() == start + warm@.len() + measured@.len()
            &&& 0 <= k < start ==> runs[k] == before.runs()[k]
            &&& 0 <= k < warm@.len() ==> runs[start + k].text == warm@[k]@
            &&& 0 <= k < measured@.len() ==> runs[start + (warm@.len() + k)].text == measured@[k]@
        }),
        is_reading(r),
{
    let all = batch_texts(warm@) + batch_texts(measured@);
    assert(appended(before.runs(), after.runs(), all));
    if 0 <= k < warm@.len() {
        assert(all[k] == warm@[k]@);
    }
    if 0 <= k < measured@.len() {
        assert(all[warm@.len() + k] == measured@[k]@);
    }
}

/// One text is encoded into an empty buffer, and no other.
pub proof fn law_one_text_is_encoded<E: Engine>(engine: E, text: &str, r: E)
    requires
        call_ensures(encode_one::<E>, (engine, text), r),
    ensures
        r.runs().len() == engine.runs().len() + 1,
        r.runs().drop_last() == engine.runs(),
        r.runs().last().text == text@,
        r.runs().last().given.len() == 0,
        r.decodes() == engine.decodes(),
{
}

/// A plan that was run to its end has a point for every width, over the bytes it was given.
/// The pace of a point is the median of as many timings of its width as there were to be,
/// each over the same documents.
pub proof fn law_planned_points_are_timed<
    E: Engine,
    F: Fn() -> Option<E>,
    R: Fn(Vec<E>, &[&str]) -> u64,
>(
    make: F,
    run: R,
    warm: &[&str],
    measured: &[&str],
    kind: ScalingKind,
    widths: &[usize],
    pin: bool,
    padding: Padding,
    reps: usize,
    bytes: usize,
    r: Vec<ThreadPoint>,
    i: int,
)
    requires
        call_ensures(
            run_plan::<E, F, R>,
            (&make, &run, warm, measured, kind, widths, pin, padding, reps, bytes),
            r,
        ),
        0 <= i < r@.len(),
    ensures
        r@.len() == widths@.len(),
        widths@.contains(r@[i].threads),
        r@[i].bytes == bytes,
        exists|nanos: Seq<u64>|
            nanos.len() == reps && #[trigger] is_median(nanos, r@[i].pace) && forall|j: int|
                0 <= j < reps ==> call_ensures(
                    time_width::<E, F, R>,
                    (&make, &run, warm, measured, kind, r@[i].threads, pin, padding),
                    Some(#[trigger] nanos[j]),
                ),
{
    lemma_timed_point::<E, F, R>(
        make,
        run,
        warm,
        measured,
        kind,
        widths@,
        pin,
        padding,
        reps as nat,
        bytes,
        r@,
        i,
    );
}

proof fn lemma_timed_point<E: Engine, F: Fn() -> Option<E>, R: Fn(Vec<E>, &[&str]) -> u64>(
    make: F,
    run: R,
    warm: &[&str],
    measured: &[&str],
    kind: ScalingKind,
    widths: Seq<usize>,
    pin: bool,
    padding: Padding,
    reps: nat,
    bytes: usize,
    points: Seq<ThreadPoint>,
    i: int,
)
    requires
        timed_points::<E, F, R>(
            make,
            run,
            warm,
            measured,
            kind,
            widths,
            pin,
            padding,
            reps,
            bytes,
            points,
        ),
        0 <= i < points.len(),
    ensures
        points.len() == widths.len(),
        widths.contains(points[i].threads),
        points[i].bytes == bytes,
        exists|nanos: Seq<u64>|
            nanos.len() == reps && #[trigger] is_median(nanos, points[i].pace) && forall|j: int|
                0 <= j < reps ==> call_ensures(
                    time_width::<E, F, R>,
                    (&make, &run, warm, measured, kind, points[i].threads, pin, padding),
                    Some(#[trigger] nanos[j]),
                ),
{
    let paces = choose|paces: Seq<Middle<u64>>|
        paces.len() == widths.len() && #[trigger] are_points(widths, paces, bytes, points)
            && forall|k: int|
            0 <= k < widths.len() ==> is_pace::<E, F, R>(
                make,
                run,
                warm,
                measured,
                kind,
                widths[k],
                pin,
                padding,
                reps,
                #[trigger] paces[k],
            );
    let order = choose|order: Seq<usize>| #[trigger]
        in_order(widths, order) && points == Seq::new(
            widths.len(),
            |i: int|
                ThreadPoint {
                    threads: widths[order[i] as int],
                    bytes,
                    pace: paces[order[i] as int],
                    base: base_of(widths, paces),
                },
        );
    let k = order[i] as int;
    assert(points[i].threads == widths[k] && points[i].pace == paces[k]);
    assert(is_pace::<E, F, R>(
        make,
        run,
        warm,
        measured,
        kind,
        widths[k],
        pin,
        padding,
        reps,
        paces[k],
    ));
    let nanos = choose|nanos: Seq<u64>|
        nanos.len() == reps && #[trigger] is_median(nanos, paces[k]) && forall|j: int|
            0 <= j < reps ==> is_timing::<E, F, R>(
                make,
                run,
                warm,
                measured,
                kind,
                widths[k],
                pin,
                padding,
                Some(#[trigger] nanos[j]),
            );
    assert(is_median(nanos, points[i].pace));
    assert forall|j: int| 0 <= j < reps implies call_ensures(
        time_width::<E, F, R>,
        (&make, &run, warm, measured, kind, points[i].threads, pin, padding),
        Some(#[trigger] nanos[j]),
    ) by {
        assert(is_timing::<E, F, R>(
            make,
            run,
            warm,
            measured,
            kind,
            widths[k],
            pin,
            padding,
            Some(nanos[j]),
        ));
    }
}

/// Every point of a sweep is the median of as many timings of its width as there were to be,
/// each with a fresh engine warmed on every sixth document and timed on the others.
pub proof fn law_sweep_paces_are_medians<
    E: Engine,
    F: Fn() -> Option<E>,
    R: Fn(Vec<E>, &[&str]) -> u64,
>(
    make: F,
    run: R,
    chunks: &[String],
    counts: &[usize],
    reps: usize,
    padding: Padding,
    mode: ScalingMode,
    native_batch: bool,
    takes: spec_fn(usize) -> bool,
    r: Option<Scaling>,
    i: int,
)
    requires
        chunks@.len() >= 2,
        reps > 0,
        call_ensures(
            measure_scaling_with_mode::<E, F, R>,
            (&make, &run, chunks, counts, reps, padding, mode),
            r,
        ),
        answers_alike::<E, F>(make, padding, true, native_batch, takes),
        r is Some,
        0 <= i < r->0.points@.len(),
    ensures
        exists|warm: &[&str], measured: &[&str], pin: bool, nanos: Seq<u64>|
            {
                &&& batch_texts(warm@) == warm_of(contents(chunks@))
                &&& batch_texts(measured@) == measured_of(contents(chunks@))
                &&& nanos.len() == reps && #[trigger] is_median(nanos, r->0.points@[i].pace)
                &&& #[trigger] are_timings::<E, F, R>(
                    make,
                    run,
                    warm,
                    measured,
                    r->0.kind,
                    r->0.points@[i].threads,
                    pin,
                    padding,
                    nanos,
                )
            },
{
    let docs = contents(chunks@);
    let planned = plan_of(mode, true, counts@.filter(takes), native_batch, counts@, padding);
    law_sweep_follows_the_answers::<E, F, R>(
        make,
        run,
        docs,
        counts@,
        reps as nat,
        padding,
        mode,
        true,
        native_batch,
        takes,
        r,
    );
    let (warm, measured) = choose|warm: &[&str], measured: &[&str]|
        batch_texts(warm@) == warm_of(docs) && batch_texts(measured@) == measured_of(docs)
            && #[trigger] follows_plan::<E, F, R>(
            make,
            run,
            warm,
            measured,
            planned,
            padding,
            reps as nat,
            r,
        );
    let points = r->0.points@;
    let bytes = total_bytes(batch_texts(measured@)) as usize;
    match planned {
        Planned::Run { kind, widths, pin } => {
            lemma_timed_point::<E, F, R>(
                make,
                run,
                warm,
                measured,
                kind,
                widths,
                pin,
                padding,
                reps as nat,
                bytes,
                points,
                i,
            );
            let nanos = choose|nanos: Seq<u64>|
                nanos.len() == reps && #[trigger] is_median(nanos, points[i].pace) && forall|j: int|
                    0 <= j < reps ==> call_ensures(
                        time_width::<E, F, R>,
                        (&make, &run, warm, measured, kind, points[i].threads, pin, padding),
                        Some(#[trigger] nanos[j]),
                    );
            assert(are_timings::<E, F, R>(
                make,
                run,
                warm,
                measured,
                r->0.kind,
                points[i].threads,
                pin,
                padding,
                nanos,
            ));
        },
        _ => {},
    }
}

/// Whether all of these times were taken of this width.
pub open spec fn are_timings<E: Engine, F: Fn() -> Option<E>, R: Fn(Vec<E>, &[&str]) -> u64>(
    make: F,
    run: R,
    warm: &[&str],
    measured: &[&str],
    kind: ScalingKind,
    threads: usize,
    pin: bool,
    padding: Padding,
    nanos: Seq<u64>,
) -> bool {
    forall|j: int|
        0 <= j < nanos.len() ==> call_ensures(
            time_width::<E, F, R>,
            (&make, &run, warm, measured, kind, threads, pin, padding),
            Some(#[trigger] nanos[j]),
        )
}

/// Independent instances are timed together: there is one for each thread, and the time is
/// what running them all on the documents took.
pub proof fn law_instances_are_run_together<
    E: Engine,
    F: Fn() -> Option<E>,
    R: Fn(Vec<E>, &[&str]) -> u64,
>(
    make: F,
    run: R,
    warm: &[&str],
    measured: &[&str],
    threads: usize,
    pin: bool,
    padding: Padding,
    nanos: u64,
)
    requires
        call_ensures(
            time_width::<E, F, R>,
            (
                &make,
                &run,
                warm,
                measured,
                ScalingKind::IndependentInstances,
                threads,
                pin,
                padding,
            ),
            Some(nanos),
        ),
    ensures
        exists|engines: Vec<E>|
            engines@.len() == threads && #[trigger] call_ensures(run, (engines, measured), nanos),
{
    let (engines, spent) = choose|engines: Vec<E>, spent: u64|
        call_ensures(prepare_instances::<E, F>, (&make, warm, threads, pin), Some(engines))
            && #[trigger] call_ensures(run, (engines, measured), spent) && Some(nanos) == Some(
            spent,
        );
    assert(call_ensures(run, (engines, measured), nanos));
}

/// Where the choice of kind is the engine's, there is no sweep exactly where it does not pad
/// as asked, or has to be padded and neither takes a width nor fans batches out; and too
/// little text, or no repetition, leaves an empty one.
pub proof fn law_sweep_of_its_own_choice<
    E: Engine,
    F: Fn() -> Option<E>,
    R: Fn(Vec<E>, &[&str]) -> u64,
>(
    make: F,
    run: R,
    chunks: &[String],
    counts: &[usize],
    reps: usize,
    padding: Padding,
    pads: bool,
    native_batch: bool,
    takes: spec_fn(usize) -> bool,
    r: Option<Scaling>,
)
    requires
        call_ensures(
            measure_scaling::<E, F, R>,
            (&make, &run, chunks, counts, reps, padding),
            r,
        ),
        answers_alike::<E, F>(make, padding, pads, native_batch, takes),
    ensures
        chunks@.len() < 2 || reps == 0 ==> r is Some && r->0.kind
            == ScalingKind::IndependentInstances && r->0.padding == padding
            && r->0.points@.len() == 0,
        chunks@.len() >= 2 && reps > 0 ==> (r is None <==> !pads || (padding == Padding::Longest
            && counts@.filter(takes).len() == 0 && !native_batch)),
        chunks@.len() >= 2 && reps > 0 && r is Some ==> (r->0.kind == ScalingKind::NativeThreads
            <==> counts@.filter(takes).len() > 0 || native_batch),
{
    let docs = contents(chunks@);
    assert(docs.len() == chunks@.len());
    if docs.len() >= 2 && reps > 0 {
        law_when_there_is_no_sweep::<E, F, R>(
            make,
            run,
            docs,
            counts@,
            reps as nat,
            padding,
            ScalingMode::Auto,
            pads,
            native_batch,
            takes,
            r,
        );
        law_sweep_follows_the_answers::<E, F, R>(
            make,
            run,
            docs,
            counts@,
            reps as nat,
            padding,
            ScalingMode::Auto,
            pads,
            native_batch,
            takes,
            r,
        );
    }
}

/// An engine is timed by itself exactly where it takes the width, if one is asked for, and
/// pads as asked.
pub proof fn law_native_timing_needs_width_and_padding<E: Engine + ?Sized>(
    warm: &[&str],
    measured: &[&str],
    threads: usize,
    padding: Padding,
    r: Option<u64>,
    takes: spec_fn(usize) -> bool,
    pads: spec_fn(Padding) -> bool,
)
    requires
        exists|e: &mut E| #[trigger]
            call_ensures(time_native_batch::<E>, (e, warm, measured, threads, padding), r),
        forall|w: &mut E, n: usize, yes: bool| #[trigger]
            call_ensures(E::set_threads, (w, n), yes) ==> yes == takes(n),
        forall|p: &mut E, q: Padding, yes: bool| #[trigger]
            call_ensures(E::set_padding, (p, q), yes) ==> yes == pads(q),
    ensures
        r is Some <==> (threads == 0 || takes(threads)) && pads(padding),
        r is Some ==> is_reading(r->0),
{
    let e = choose|e: &mut E| #[trigger]
        call_ensures(time_native_batch::<E>, (e, warm, measured, threads, padding), r);
    let (a, ready) = choose|a: &mut E, ready: bool|
        &*a == &*e && #[trigger] call_ensures(prepare::<E>, (a, threads, padding), ready) && (
        r is Some <==> ready);
    law_ready_engines_take_width_and_padding::<E>(
        &*a,
        &*final(a),
        threads,
        padding,
        ready,
        takes,
        pads,
    );
}

/// An instance that is to be held is one that was made and has said yes to one thread; one
/// that is not is as it was made. There is one exactly where it can be made and, if it is to
/// be held, takes one thread.
pub proof fn law_held_instances_take_one_thread<E: Engine, F: Fn() -> Option<E>>(
    make: F,
    pin: bool,
    r: Option<E>,
    takes: spec_fn(usize) -> bool,
)
    requires
        call_ensures(make_instance::<E, F>, (&make, pin), r),
        forall|w: &mut E, n: usize, yes: bool| #[trigger]
            call_ensures(E::set_threads, (w, n), yes) ==> yes == takes(n),
    ensures
        r is Some ==> !pin || takes(1),
        !call_ensures(make, (), None) ==> (r is Some <==> !pin || takes(1)),
        r is Some && !pin ==> call_ensures(make, (), r),
        r is Some && pin ==> exists|w: &mut E| #[trigger]
            call_ensures(E::set_threads, (w, 1usize), true) && call_ensures(make, (), Some(*w))
                && *final(w) == r->0,
{
}

}
