//! The timing loops: one per direction, and every engine goes through them
//! unchanged.
//!
//! Warm-up and every timed pass get slices of their own, so that no engine is
//! handed text it has already encoded; a verification pass over the whole
//! corpus follows, outside the clock.

use crate::chunk::{lemma_together_flat, lemma_together_push, together};
use crate::clock::{are_readings, is_reading, nanos_since};
use crate::engine::{
    appended, appends, appends_text, are_calls, are_decode_calls, decode_into, encode_into,
    encoded, encoded_len, fresh, fresh_decodes, ids_of, is_call, is_decode_call,
    law_bytes_are_utf8, law_bytes_of_equal_texts, law_calls_append, lemma_appended_both,
    lemma_appended_one, lemma_calls_both, lemma_fresh_both, lemma_total_bytes_within, refused,
    total_bytes, unsupported, Decoded, Engine, Ids, Run, Unsupported,
};
use crate::hash::{hash_of_ids, hash_of_text, ids_hash, text_hash};
use crate::order::Ranked;
use crate::scan::contents;
use crate::stats::{is_median, is_percentile, law_percentile_divides, law_percentiles_rise, median, percentile, Middle,
    Sample};
use crate::text::{byte_count, byte_len};
use std::hint::black_box;
use std::time::Instant;
use vstd::prelude::*;
use vstd::string::StringExecFns;
use vstd::utf8::encode_utf8;

verus! {

/// What an encode measurement found. The pace is the median time per byte over
/// the timed slices; `bytes` is the size of one slice.
#[derive(Clone, Debug)]
pub struct Measure {
    pub pace: Middle<Sample>,
    pub bytes: usize,
    pub tokens: usize,
    pub ids_hash: u64,
    pub reused: bool,
}

/// What a decode measurement found. The pace is the median time of one pass.
#[derive(Clone, Debug)]
pub struct DecodeMeasure {
    pub pace: Middle<u64>,
    pub bytes: usize,
    pub tokens: usize,
    pub text_hash: u64,
}

/// What a latency measurement found, in nanoseconds.
#[derive(Clone, Debug)]
pub struct LatencyMeasure {
    pub p50_nanos: u64,
    pub p99_nanos: u64,
    pub samples: usize,
    pub document_bytes: usize,
}

// ---------------------------------------------------------------------------
// Passes
// ---------------------------------------------------------------------------

/// Encodes the documents from `from` up to `to`, each into an empty buffer.
fn encode_range<E: Engine + ?Sized>(
    engine: &mut E,
    chunks: &[String],
    from: usize,
    to: usize,
    out: Ids,
) -> (r: Ids)
    requires
        from <= to <= chunks@.len(),
    ensures
        appended(
            old(engine).runs(),
            final(engine).runs(),
            contents(chunks@).subrange(from as int, to as int),
        ),
        fresh(final(engine).runs(), old(engine).runs().len()),
        are_calls::<E>(final(engine).runs(), old(engine).runs().len()),
        final(engine).decodes() == old(engine).decodes(),
{
    let ghost docs = contents(chunks@);
    let mut out = out;
    let mut i: usize = from;
    assert(docs.subrange(from as int, from as int) =~= Seq::empty());
    while i < to
        invariant
            from <= i <= to <= chunks@.len(),
            docs == contents(chunks@),
            appended(old(engine).runs(), engine.runs(), docs.subrange(from as int, i as int)),
            fresh(engine.runs(), old(engine).runs().len()),
            are_calls::<E>(engine.runs(), old(engine).runs().len()),
            engine.decodes() == old(engine).decodes(),
        decreases to - i,
    {
        let ghost before = engine.runs();
        out.clear();
        out = encode_into(engine, chunks[i].as_str(), out);
        let _ = black_box(&out);
        assert(is_call::<E>(engine.runs().last()));
        proof {
            let done = docs.subrange(from as int, i as int);
            lemma_appended_one(before, engine.runs().last());
            lemma_appended_both(old(engine).runs(), before, engine.runs(), done, seq![docs[i as int]]);
            assert(docs.subrange(from as int, i + 1) =~= done + seq![docs[i as int]]);
        }
        i = i + 1;
    }
    out
}

/// Encodes every document and keeps the ids of all of them.
fn encode_and_keep<E: Engine + ?Sized>(engine: &mut E, chunks: &[String], out: Ids) -> (all: Ids)
    ensures
        appended(old(engine).runs(), final(engine).runs(), contents(chunks@)),
        fresh(final(engine).runs(), old(engine).runs().len()),
        are_calls::<E>(final(engine).runs(), old(engine).runs().len()),
        final(engine).decodes() == old(engine).decodes(),
        all@ == ids_of(final(engine).runs().skip(final(engine).runs().len() - chunks@.len())),
{
    let ghost docs = contents(chunks@);
    let ghost start = engine.runs().len() as int;
    let mut all: Ids = Vec::new();
    let mut out = out;
    let mut i: usize = 0;
    assert(docs.take(0) =~= Seq::empty());
    assert(engine.runs().skip(start) =~= Seq::<Run>::empty());
    while i < chunks.len()
        invariant
            i <= chunks@.len(),
            docs == contents(chunks@),
            start == old(engine).runs().len(),
            appended(old(engine).runs(), engine.runs(), docs.take(i as int)),
            fresh(engine.runs(), old(engine).runs().len()),
            are_calls::<E>(engine.runs(), old(engine).runs().len()),
            engine.decodes() == old(engine).decodes(),
            all@ == ids_of(engine.runs().skip(start)),
        decreases chunks@.len() - i,
    {
        let ghost before = engine.runs();
        out.clear();
        out = encode_into(engine, chunks[i].as_str(), out);
        assert(is_call::<E>(engine.runs().last()));
        all.extend_from_slice(out.as_slice());
        proof {
            let done = docs.take(i as int);
            lemma_appended_one(before, engine.runs().last());
            lemma_appended_both(old(engine).runs(), before, engine.runs(), done, seq![docs[i as int]]);
            assert(docs.take(i + 1) =~= done + seq![docs[i as int]]);
            assert(engine.runs().skip(start).drop_last() =~= before.skip(start));
        }
        i = i + 1;
    }
    assert(docs.take(docs.len() as int) =~= docs);
    all
}

/// The bytes of the documents from `from` up to `to`.
fn range_bytes(chunks: &[String], from: usize, to: usize) -> (n: usize)
    requires
        from <= to <= chunks@.len(),
        total_bytes(contents(chunks@)) <= usize::MAX,
    ensures
        n == total_bytes(contents(chunks@).subrange(from as int, to as int)),
{
    let ghost docs = contents(chunks@);
    let mut n: usize = 0;
    let mut i: usize = from;
    assert(docs.subrange(from as int, from as int) =~= Seq::empty());
    while i < to
        invariant
            from <= i <= to <= chunks@.len(),
            docs == contents(chunks@),
            total_bytes(docs) <= usize::MAX,
            n == total_bytes(docs.subrange(from as int, i as int)),
        decreases to - i,
    {
        proof {
            let more = docs.subrange(from as int, i + 1);
            lemma_total_bytes_within(docs, from as int, i + 1);
            assert(more.drop_last() =~= docs.subrange(from as int, i as int));
        }
        n = n + byte_len(chunks[i].as_str());
        i = i + 1;
    }
    n
}

// ---------------------------------------------------------------------------
// Slices
// ---------------------------------------------------------------------------

/// How many of `n` documents each of `reps` timed slices and the warm-up slice
/// gets.
pub open spec fn per_slice(n: nat, reps: nat) -> nat {
    if n / (reps + 1) == 0 {
        1
    } else {
        n / (reps + 1)
    }
}

/// Where slice `i` starts.
pub open spec fn slice_start(n: nat, reps: nat, i: nat) -> nat {
    if n == 0 {
        0
    } else {
        (i * per_slice(n, reps)) % n
    }
}

/// Where slice `i` ends.
pub open spec fn slice_end(n: nat, reps: nat, i: nat) -> nat {
    if slice_start(n, reps, i) + per_slice(n, reps) <= n {
        slice_start(n, reps, i) + per_slice(n, reps)
    } else {
        n
    }
}

/// The documents of slice `i`: slice 0 is the warm-up.
pub open spec fn slice(docs: Seq<Seq<char>>, reps: nat, i: nat) -> Seq<Seq<char>> {
    docs.subrange(
        slice_start(docs.len(), reps, i) as int,
        slice_end(docs.len(), reps, i) as int,
    )
}

/// The documents of the first `r` timed slices; a slice without bytes is left
/// out.
pub open spec fn timed_texts(docs: Seq<Seq<char>>, reps: nat, r: nat) -> Seq<Seq<char>>
    decreases r,
{
    if r == 0 {
        Seq::empty()
    } else if total_bytes(slice(docs, reps, r)) > 0 {
        timed_texts(docs, reps, (r - 1) as nat) + slice(docs, reps, r)
    } else {
        timed_texts(docs, reps, (r - 1) as nat)
    }
}

/// The sizes of the first `r` timed slices, those without bytes left out.
pub open spec fn timed_sizes(docs: Seq<Seq<char>>, reps: nat, r: nat) -> Seq<nat>
    decreases r,
{
    if r == 0 {
        Seq::empty()
    } else if total_bytes(slice(docs, reps, r)) > 0 {
        timed_sizes(docs, reps, (r - 1) as nat).push(total_bytes(slice(docs, reps, r)))
    } else {
        timed_sizes(docs, reps, (r - 1) as nat)
    }
}

/// Where there are enough documents, the warm-up and the timed slices share
/// none: each ends before the next begins, and the last ends with the corpus at
/// the latest.
pub proof fn law_slices_disjoint(n: nat, reps: nat, i: nat, j: nat)
    requires
        n >= reps + 1,
        i < j <= reps,
    ensures
        slice_start(n, reps, i) < slice_end(n, reps, i) <= slice_start(n, reps, j),
        slice_start(n, reps, j) < slice_end(n, reps, j) <= n,
        slice_end(n, reps, i) - slice_start(n, reps, i) == slice_end(n, reps, j) - slice_start(
            n,
            reps,
            j,
        ),
{
    let w = reps + 1;
    let per = per_slice(n, reps);
    vstd::arithmetic::div_mod::lemma_fundamental_div_mod(n as int, w as int);
    assert(n / w > 0) by {
        vstd::arithmetic::div_mod::lemma_div_non_zero(n as int, w as int);
    }
    assert(w * per <= n);
    assert(i * per + per <= j * per && j * per + per <= w * per) by (nonlinear_arith)
        requires
            i + 1 <= j,
            j + 1 <= w,
    ;
    vstd::arithmetic::div_mod::lemma_small_mod(i * per, n);
    vstd::arithmetic::div_mod::lemma_small_mod(j * per, n);
}

/// Every slice is a stretch of the documents.
proof fn lemma_slice_bounds(n: nat, reps: nat, i: nat)
    ensures
        slice_start(n, reps, i) <= slice_end(n, reps, i) <= n,
        n > 0 ==> slice_start(n, reps, i) < slice_end(n, reps, i),
{
    if n > 0 {
        vstd::arithmetic::div_mod::lemma_mod_bound((i * per_slice(n, reps)) as int, n as int);
    }
}

/// The bounds of slice `i`.
fn slice_bounds(n: usize, reps: usize, i: usize) -> (r: (usize, usize))
    requires
        i <= reps < usize::MAX,
    ensures
        r.0 == slice_start(n as nat, reps as nat, i as nat),
        r.1 == slice_end(n as nat, reps as nat, i as nat),
        r.0 <= r.1 <= n,
{
    proof {
        lemma_slice_bounds(n as nat, reps as nat, i as nat);
    }
    if n == 0 {
        return (0, 0);
    }
    let want: usize = reps + 1;
    let mut per: usize = n / want;
    if per == 0 {
        per = 1;
    }
    proof {
        vstd::arithmetic::div_mod::lemma_fundamental_div_mod(n as int, want as int);
        vstd::arithmetic::div_mod::lemma_mod_bound(n as int, want as int);
        if n / want == 0 {
            assert(i * per == i) by (nonlinear_arith)
                requires
                    per == 1,
            ;
        } else {
            assert(i * per <= want * per) by (nonlinear_arith)
                requires
                    i <= want,
            ;
        }
    }
    let start: usize = (i * per) % n;
    let end: usize = if per >= n - start {
        n
    } else {
        start + per
    };
    (start, end)
}

/// Whether some timed slice holds text, so that there is something to time.
pub fn has_timed_text(chunks: &[String], reps: usize) -> (r: bool)
    requires
        reps < usize::MAX,
        total_bytes(contents(chunks@)) <= usize::MAX,
    ensures
        r == (timed_sizes(contents(chunks@), reps as nat, reps as nat).len() > 0),
{
    let ghost docs = contents(chunks@);
    let mut found: bool = false;
    let mut r: usize = 0;
    while r < reps
        invariant
            r <= reps < usize::MAX,
            docs == contents(chunks@),
            total_bytes(docs) <= usize::MAX,
            found == (timed_sizes(docs, reps as nat, r as nat).len() > 0),
        decreases reps - r,
    {
        let (from, to) = slice_bounds(chunks.len(), reps, r + 1);
        if range_bytes(chunks, from, to) > 0 {
            found = true;
        }
        r = r + 1;
    }
    found
}

// ---------------------------------------------------------------------------
// Encoding
// ---------------------------------------------------------------------------

/// The texts a measurement hands to its engine, in order.
pub open spec fn handed(docs: Seq<Seq<char>>, reps: nat, warmup: bool) -> Seq<Seq<char>> {
    if warmup {
        slice(docs, reps, 0) + timed_texts(docs, reps, reps) + docs
    } else {
        docs + docs
    }
}

/// The sizes of the stretches a measurement times.
pub open spec fn sizes(docs: Seq<Seq<char>>, reps: nat, warmup: bool) -> Seq<nat> {
    if warmup {
        timed_sizes(docs, reps, reps)
    } else {
        seq![total_bytes(docs)]
    }
}

/// The samples that timings of slices of these sizes make.
pub open spec fn samples_of(nanos: Seq<u64>, sizes: Seq<nat>) -> Seq<Sample> {
    Seq::new(sizes.len(), |k: int| Sample { nanos: nanos[k], bytes: sizes[k] as usize })
}

/// What a measurement says, given the history its engine ends with.
pub open spec fn is_measure(
    docs: Seq<Seq<char>>,
    reps: nat,
    warmup: bool,
    runs: Seq<Run>,
    m: Measure,
) -> bool {
    let ids = ids_of(runs.skip(runs.len() - docs.len()));
    let timed = sizes(docs, reps, warmup);
    &&& m.tokens == ids.len()
    &&& m.ids_hash == hash_of_ids(ids)
    &&& m.reused == (warmup && docs.len() < reps + 1)
    &&& m.bytes == timed.last()
    &&& exists|nanos: Seq<u64>|
        nanos.len() == timed.len() && are_readings(nanos) && is_median(
            #[trigger] samples_of(nanos, timed),
            m.pace,
        )
}

/// Measures one direction of one engine.
///
/// With a warm-up: slice 0 is encoded untimed, then each timed slice once under
/// the clock. Without: one cold pass over everything, which is the only one
/// that can be cold. Either way a verification pass over the whole corpus
/// follows, and the ids are those of that pass.
pub fn measure<E: Engine + ?Sized>(
    engine: &mut E,
    chunks: &[String],
    reps: usize,
    warmup: bool,
) -> (m: Measure)
    requires
        total_bytes(contents(chunks@)) <= usize::MAX,
        warmup ==> reps < usize::MAX,
        warmup ==> timed_sizes(contents(chunks@), reps as nat, reps as nat).len() > 0,
    ensures
        appended(
            old(engine).runs(),
            final(engine).runs(),
            handed(contents(chunks@), reps as nat, warmup),
        ),
        fresh(final(engine).runs(), old(engine).runs().len()),
        are_calls::<E>(final(engine).runs(), old(engine).runs().len()),
        final(engine).decodes() == old(engine).decodes(),
        is_measure(contents(chunks@), reps as nat, warmup, final(engine).runs(), m),
{
    let ghost docs = contents(chunks@);
    let ghost r0 = engine.runs();
    let n: usize = chunks.len();
    let mut out: Ids = Vec::with_capacity(64 * 1024);
    let mut samples: Vec<Sample> = Vec::new();
    let ghost mut nanos: Seq<u64> = Seq::empty();
    let mut bytes: usize = 0;
    let mut reused: bool = false;
    if warmup {
        reused = n < reps + 1;
        let (from, to) = slice_bounds(n, reps, 0);
        out = encode_range(engine, chunks, from, to, out);
        let mut r: usize = 0;
        assert(slice(docs, reps as nat, 0) + Seq::empty() =~= slice(docs, reps as nat, 0));
        while r < reps
            invariant
                r <= reps < usize::MAX,
                docs == contents(chunks@),
                n == docs.len(),
                total_bytes(docs) <= usize::MAX,
                appended(
                    r0,
                    engine.runs(),
                    slice(docs, reps as nat, 0) + timed_texts(docs, reps as nat, r as nat),
                ),
                r0 == old(engine).runs(),
                fresh(engine.runs(), r0.len()),
                are_calls::<E>(engine.runs(), r0.len()),
                engine.decodes() == old(engine).decodes(),
                are_readings(nanos),
                nanos.len() == timed_sizes(docs, reps as nat, r as nat).len(),
                samples@ == samples_of(nanos, timed_sizes(docs, reps as nat, r as nat)),
                nanos.len() > 0 ==> bytes == timed_sizes(docs, reps as nat, r as nat).last(),
            decreases reps - r,
        {
            let (a, b) = slice_bounds(n, reps, r + 1);
            let sb: usize = range_bytes(chunks, a, b);
            if sb > 0 {
                let ghost mid = engine.runs();
                let ghost done = slice(docs, reps as nat, 0) + timed_texts(
                    docs,
                    reps as nat,
                    r as nat,
                );
                let ghost was = timed_sizes(docs, reps as nat, r as nat);
                let t0 = Instant::now();
                out = encode_range(engine, chunks, a, b, out);
                let spent: u64 = nanos_since(&t0);
                samples.push(Sample { nanos: spent, bytes: sb });
                bytes = sb;
                proof {
                    let more = slice(docs, reps as nat, (r + 1) as nat);
                    lemma_appended_both(r0, mid, engine.runs(), done, more);
                    lemma_fresh_both(r0.len(), mid, engine.runs(), more);
                    lemma_calls_both::<E>(r0.len(), mid, engine.runs(), more);
                    assert(is_reading(spent));
                    assert(slice(docs, reps as nat, 0) + timed_texts(
                        docs,
                        reps as nat,
                        (r + 1) as nat,
                    ) =~= done + more);
                    nanos = nanos.push(spent);
                    assert(samples@ =~= samples_of(
                        nanos,
                        timed_sizes(docs, reps as nat, (r + 1) as nat),
                    ));
                }
            }
            r = r + 1;
        }
    } else {
        bytes = range_bytes(chunks, 0, n);
        let t0 = Instant::now();
        out = encode_range(engine, chunks, 0, n, out);
        let spent: u64 = nanos_since(&t0);
        samples.push(Sample { nanos: spent, bytes });
        proof {
            assert(is_reading(spent));
            nanos = nanos.push(spent);
            assert(docs.subrange(0, docs.len() as int) =~= docs);
            assert(samples@ =~= samples_of(nanos, sizes(docs, reps as nat, false)));
        }
    }
    let ghost timed = sizes(docs, reps as nat, warmup);
    let ghost r1 = engine.runs();
    let all = encode_and_keep(engine, chunks, out);
    proof {
        let before = if warmup {
            slice(docs, reps as nat, 0) + timed_texts(docs, reps as nat, reps as nat)
        } else {
            docs
        };
        lemma_appended_both(r0, r1, engine.runs(), before, docs);
        lemma_fresh_both(r0.len(), r1, engine.runs(), docs);
        lemma_calls_both::<E>(r0.len(), r1, engine.runs(), docs);
    }
    let tokens: usize = all.len();
    let hash: u64 = ids_hash(all.as_slice());
    let pace = median(samples.as_slice());
    let m = Measure { pace, bytes, tokens, ids_hash: hash, reused };
    assert(is_median(samples_of(nanos, timed), m.pace));
    m
}

proof fn lemma_encoded(
    runs: Seq<Run>,
    docs: Seq<Seq<char>>,
    enc: spec_fn(Seq<char>) -> Seq<u32>,
)
    requires
        runs.len() == docs.len(),
        forall|k: int| 0 <= k < docs.len() ==> (#[trigger] runs[k]).ids == enc(docs[k]),
    ensures
        ids_of(runs) == encoded(docs, enc),
        ids_of(runs).len() == encoded_len(docs, enc),
    decreases docs.len(),
{
    if docs.len() > 0 {
        assert forall|k: int| 0 <= k < docs.len() - 1 implies (#[trigger] runs.drop_last()[k]).ids
            == enc(docs.drop_last()[k]) by {
            assert(runs.drop_last()[k] == runs[k]);
        }
        lemma_encoded(runs.drop_last(), docs.drop_last(), enc);
    }
}

/// Where an engine appends what it makes of each text, a measurement counts and
/// hashes what it makes of every document once, one after the other: whatever
/// the number of passes, with a warm-up or without, and whatever was encoded
/// before.
pub proof fn law_measure_counts_each_document_once(
    docs: Seq<Seq<char>>,
    reps: nat,
    warmup: bool,
    before: Seq<Run>,
    after: Seq<Run>,
    m: Measure,
    enc: spec_fn(Seq<char>) -> Seq<u32>,
)
    requires
        appended(before, after, handed(docs, reps, warmup)),
        fresh(after, before.len()),
        is_measure(docs, reps, warmup, after, m),
        appends(after, before.len(), enc),
    ensures
        m.tokens == encoded_len(docs, enc),
        m.tokens == encoded(docs, enc).len(),
        m.ids_hash == hash_of_ids(encoded(docs, enc)),
{
    let all = handed(docs, reps, warmup);
    let skipped = after.len() - docs.len();
    let tail = after.skip(skipped);
    assert(all.len() >= docs.len());
    assert forall|k: int| 0 <= k < docs.len() implies (#[trigger] tail[k]).ids == enc(docs[k]) by {
        let at = all.len() - docs.len() + k;
        assert(all[at] == docs[k]);
        assert(after[before.len() + at].text == all[at]);
        assert(tail[k] == after[before.len() + at]);
        assert(after[before.len() + at].given =~= Seq::empty());
        assert(Seq::<u32>::empty() + enc(docs[k]) =~= enc(docs[k]));
    }
    lemma_encoded(tail, docs, enc);
}

/// Where `encode` appends what it makes of each text, a measurement counts and
/// hashes what it makes of every document once: two measurements of the same
/// documents agree, whatever the passes and the warm-up of either.
pub proof fn law_measurements_agree<E: Engine + ?Sized>(
    docs: Seq<Seq<char>>,
    reps: nat,
    warmup: bool,
    before: Seq<Run>,
    after: Seq<Run>,
    m: Measure,
    other_reps: nat,
    other_warmup: bool,
    other_before: Seq<Run>,
    other_after: Seq<Run>,
    other: Measure,
    enc: spec_fn(Seq<char>) -> Seq<u32>,
)
    requires
        forall|e: &mut E, text: &str, out: &mut Ids| #[trigger]
            call_ensures(E::encode, (e, text, out), ()) ==> final(out)@ == out@ + enc(text@),
        appended(before, after, handed(docs, reps, warmup)),
        fresh(after, before.len()),
        are_calls::<E>(after, before.len()),
        is_measure(docs, reps, warmup, after, m),
        appended(other_before, other_after, handed(docs, other_reps, other_warmup)),
        fresh(other_after, other_before.len()),
        are_calls::<E>(other_after, other_before.len()),
        is_measure(docs, other_reps, other_warmup, other_after, other),
    ensures
        m.tokens == encoded_len(docs, enc),
        m.ids_hash == hash_of_ids(encoded(docs, enc)),
        m.tokens == other.tokens,
        m.ids_hash == other.ids_hash,
{
    law_calls_append::<E>(after, before.len(), enc);
    law_calls_append::<E>(other_after, other_before.len(), enc);
    law_measure_counts_each_document_once(docs, reps, warmup, before, after, m, enc);
    law_measure_counts_each_document_once(
        docs,
        other_reps,
        other_warmup,
        other_before,
        other_after,
        other,
        enc,
    );
}

/// The texts of `n` runs of a history, from `from` on.
pub open spec fn texts_from(runs: Seq<Run>, from: int, n: nat) -> Seq<Seq<char>> {
    Seq::new(n, |d: int| runs[from + d].text)
}

/// The ids that `n` runs of a history ended with, from `from` on.
pub open spec fn ids_from(runs: Seq<Run>, from: int, n: nat) -> Seq<Seq<u32>> {
    Seq::new(n, |d: int| runs[from + d].ids)
}

proof fn lemma_ids_flat(runs: Seq<Run>, from: int)
    requires
        0 <= from <= runs.len(),
    ensures
        ids_of(runs.skip(from)) == ids_from(runs, from, (runs.len() - from) as nat).flatten(),
    decreases runs.len() - from,
{
    let n = (runs.len() - from) as nat;
    let all = ids_from(runs, from, n);
    if n == 0 {
        assert(runs.skip(from) =~= Seq::<Run>::empty());
        assert(all =~= Seq::<Seq<u32>>::empty());
        assert(all.flatten() =~= Seq::<u32>::empty());
    } else {
        lemma_ids_flat(runs, from + 1);
        lemma_ids_first(runs.skip(from));
        assert(runs.skip(from).drop_first() =~= runs.skip(from + 1));
        assert(all.drop_first() =~= ids_from(runs, from + 1, (n - 1) as nat));
        assert(all.first() == runs.skip(from)[0].ids);
    }
}

proof fn lemma_ids_first(runs: Seq<Run>)
    requires
        runs.len() > 0,
    ensures
        ids_of(runs) == runs[0].ids + ids_of(runs.drop_first()),
    decreases runs.len(),
{
    if runs.len() == 1 {
        assert(runs.drop_last() =~= Seq::<Run>::empty());
        assert(runs.drop_first() =~= Seq::<Run>::empty());
        assert(ids_of(Seq::<Run>::empty()) =~= Seq::<u32>::empty());
        assert(ids_of(runs) =~= runs[0].ids + ids_of(runs.drop_first()));
    } else {
        lemma_ids_first(runs.drop_last());
        assert(runs.drop_last().drop_first() =~= runs.drop_first().drop_last());
        assert(ids_of(runs) =~= runs[0].ids + ids_of(runs.drop_first()));
    }
}

/// With enough documents, slice `i` is the `i`th stretch of equal length.
proof fn lemma_slice_places(n: nat, reps: nat, i: nat)
    requires
        n >= reps + 1,
        i <= reps,
    ensures
        n / (reps + 1) > 0,
        per_slice(n, reps) == n / (reps + 1),
        slice_start(n, reps, i) == i * (n / (reps + 1)),
        slice_end(n, reps, i) == (i + 1) * (n / (reps + 1)),
        (i + 1) * (n / (reps + 1)) <= (reps + 1) * (n / (reps + 1)) <= n,
{
    let w = reps + 1;
    let q = n / w;
    vstd::arithmetic::div_mod::lemma_fundamental_div_mod(n as int, w as int);
    vstd::arithmetic::div_mod::lemma_div_non_zero(n as int, w as int);
    assert(i * q + q == (i + 1) * q && (i + 1) * q <= w * q && w * q == q * w) by (nonlinear_arith)
        requires
            i + 1 <= w,
            q >= 0,
    ;
    vstd::arithmetic::div_mod::lemma_small_mod(i * q, n);
}

proof fn lemma_some_bytes(list: Seq<Seq<char>>)
    requires
        list.len() > 0,
        forall|i: int| 0 <= i < list.len() ==> (#[trigger] list[i]).len() > 0,
    ensures
        total_bytes(list) > 0,
{
    assert(list[list.len() - 1].len() > 0);
    crate::text::lemma_text_bytes(list.last());
}

/// With enough documents, none of them empty, the timed slices follow the warm-up
/// slice without a gap, and each has the size of its documents.
proof fn lemma_timed_places(docs: Seq<Seq<char>>, reps: nat, r: nat)
    requires
        docs.len() >= reps + 1,
        r <= reps,
        forall|i: int| 0 <= i < docs.len() ==> (#[trigger] docs[i]).len() > 0,
    ensures
        ({
            let q = docs.len() / (reps + 1);
            &&& (r + 1) * q <= docs.len()
            &&& timed_texts(docs, reps, r) == docs.subrange(q as int, ((r + 1) * q) as int)
            &&& timed_sizes(docs, reps, r).len() == r
            &&& forall|k: int|
                0 <= k < r ==> #[trigger] timed_sizes(docs, reps, r)[k] == total_bytes(
                    docs.subrange(((k + 1) * q) as int, ((k + 2) * q) as int),
                )
        }),
    decreases r,
{
    let n = docs.len();
    let q = n / (reps + 1);
    lemma_slice_places(n, reps, r);
    if r == 0 {
        assert((0 + 1) * q == q) by (nonlinear_arith);
        assert(timed_texts(docs, reps, r) =~= docs.subrange(q as int, ((r + 1) * q) as int));
    } else {
        let s = (r - 1) as nat;
        lemma_timed_places(docs, reps, s);
        lemma_slice_places(n, reps, s);
        assert((s + 1) * q == r * q && r * q + q == (r + 1) * q && q <= r * q) by (nonlinear_arith)
            requires
                s + 1 == r,
                r >= 1,
                q >= 0,
        ;
        let part = slice(docs, reps, r);
        assert(part =~= docs.subrange((r * q) as int, ((r + 1) * q) as int));
        assert forall|i: int| 0 <= i < part.len() implies (#[trigger] part[i]).len() > 0 by {
            assert(part[i] == docs[r * q + i]);
        }
        lemma_some_bytes(part);
        assert(timed_texts(docs, reps, r) =~= docs.subrange(q as int, ((r + 1) * q) as int));
        assert forall|k: int| 0 <= k < r implies #[trigger] timed_sizes(docs, reps, r)[k]
            == total_bytes(docs.subrange(((k + 1) * q) as int, ((k + 2) * q) as int)) by {
            if k < s {
                assert(timed_sizes(docs, reps, r)[k] == timed_sizes(docs, reps, s)[k]);
            } else {
                assert((k + 1) * q == r * q && (k + 2) * q == (r + 1) * q) by (nonlinear_arith)
                    requires
                        k + 1 == r,
                ;
            }
        }
    }
}

/// With a warm-up, and documents enough for a slice of their own to every pass,
/// every document that a pass is given is given to one pass only: the engine is
/// handed the documents in order, `q` for the warm-up and `q` for each timed pass,
/// and after them all the documents once more. What is left over is encoded in
/// that last pass alone.
///
/// The sample of a timed pass holds the time of that pass and the bytes that
/// UTF-8 writes its documents in, the pace is the median of these samples, and the
/// size reported is that of the last timed pass. The ids counted and hashed are
/// those of the last pass over everything.
pub proof fn law_measure_times_each_slice_over_its_bytes<E: Engine + ?Sized>(
    before: &E,
    after: &E,
    chunks: &[String],
    reps: usize,
    m: Measure,
)
    requires
        exists|e: &mut E|
            &*e == before && &*final(e) == after && #[trigger] call_ensures(
                measure::<E>,
                (e, chunks, reps, true),
                m,
            ),
        0 < reps < chunks@.len(),
        forall|i: int| 0 <= i < chunks@.len() ==> (#[trigger] chunks@[i])@.len() > 0,
        encode_utf8(contents(chunks@).flatten()).len() <= usize::MAX,
    ensures
        ({
            let n = chunks@.len();
            let q = n / (reps as nat + 1);
            let runs = after.runs();
            let start = before.runs().len() as int;
            let passed = ((reps + 1) * q) as int;
            &&& runs.len() == start + passed + n
            &&& forall|k: int| 0 <= k < start ==> #[trigger] runs[k] == before.runs()[k]
            &&& forall|k: int| 0 <= k < passed ==> runs[start + k].text == (#[trigger] chunks@[k])@
            &&& forall|k: int|
                0 <= k < n ==> runs[start + passed + k].text == (#[trigger] chunks@[k])@
            &&& exists|samples: Seq<Sample>|
                {
                    &&& #[trigger] is_median(samples, m.pace)
                    &&& samples.len() == reps
                    &&& forall|k: int|
                        0 <= k < reps ==> is_reading((#[trigger] samples[k]).nanos)
                            && samples[k].bytes == encode_utf8(
                            texts_from(runs, start + (k + 1) * q, q).flatten(),
                        ).len()
                }
            &&& m.bytes == encode_utf8(texts_from(runs, start + reps * q, q).flatten()).len()
            &&& !m.reused
            &&& m.tokens == ids_from(runs, start + passed, n).flatten().len()
            &&& m.ids_hash == hash_of_ids(ids_from(runs, start + passed, n).flatten())
        }),
{
    let docs = contents(chunks@);
    let n = docs.len();
    let rn = reps as nat;
    let q = n / (rn + 1);
    let runs = after.runs();
    let start = before.runs().len() as int;
    let passed = ((rn + 1) * q) as int;
    assert forall|i: int| 0 <= i < n implies (#[trigger] docs[i]).len() > 0 by {
        assert(chunks@[i]@.len() > 0);
    }
    lemma_slice_places(n, rn, 0);
    lemma_timed_places(docs, rn, rn);
    assert((0 + 1) * q == q && 0 * q == 0) by (nonlinear_arith);
    let all = handed(docs, rn, true);
    assert(slice(docs, rn, 0) =~= docs.subrange(0, q as int));
    assert(all =~= docs.subrange(0, passed) + docs);
    assert(appended(before.runs(), runs, all));
    assert forall|k: int| 0 <= k < start implies #[trigger] runs[k] == before.runs()[k] by {
        assert(runs[k] == before.runs()[k]);
    }
    assert forall|k: int| 0 <= k < passed implies runs[start + k].text == (
    #[trigger] chunks@[k])@ by {
        assert(all[k] == docs[k]);
    }
    assert forall|k: int| 0 <= k < n implies runs[start + passed + k].text == (
    #[trigger] chunks@[k])@ by {
        assert(all[passed + k] == docs[k]);
        assert(runs[start + (passed + k)].text == all[passed + k]);
    }
    law_bytes_are_utf8(docs);
    let timed = sizes(docs, rn, true);
    let nanos = choose|nanos: Seq<u64>|
        nanos.len() == timed.len() && are_readings(nanos) && is_median(
            #[trigger] samples_of(nanos, timed),
            m.pace,
        );
    let samples = samples_of(nanos, timed);
    assert forall|k: int| 0 <= k < reps implies is_reading((#[trigger] samples[k]).nanos)
        && samples[k].bytes == encode_utf8(
        texts_from(runs, start + (k + 1) * q, q).flatten(),
    ).len() by {
        lemma_pass_bytes(docs, rn, k, runs, start);
        assert(is_reading(nanos[k]));
        lemma_total_bytes_within(docs, (k + 1) * q, (k + 2) * q);
    }
    assert((reps - 1 + 1) * q == reps * q) by (nonlinear_arith);
    assert(timed.last() == timed[reps - 1]);
    lemma_pass_bytes(docs, rn, reps - 1, runs, start);
    lemma_ids_flat(runs, start + passed);
}

/// The bytes of a timed pass are those of the runs it made.
proof fn lemma_pass_bytes(docs: Seq<Seq<char>>, reps: nat, k: int, runs: Seq<Run>, start: int)
    requires
        0 <= k < reps < docs.len(),
        forall|i: int| 0 <= i < docs.len() ==> (#[trigger] docs[i]).len() > 0,
        ({
            let q = docs.len() / (reps + 1);
            forall|j: int| 0 <= j < (reps + 1) * q ==> runs[start + j].text == #[trigger] docs[j]
        }),
    ensures
        ({
            let q = docs.len() / (reps + 1);
            &&& 0 <= (k + 1) * q <= (k + 2) * q <= (reps + 1) * q <= docs.len()
            &&& timed_sizes(docs, reps, reps)[k] == encode_utf8(
                texts_from(runs, start + (k + 1) * q, q).flatten(),
            ).len()
        }),
{
    let q = docs.len() / (reps + 1);
    lemma_slice_places(docs.len(), reps, (k + 1) as nat);
    lemma_timed_places(docs, reps, reps);
    let part = docs.subrange(((k + 1) * q) as int, ((k + 2) * q) as int);
    assert((k + 1) * q + q == (k + 2) * q && (k + 2) * q <= (reps + 1) * q && 0 <= (k + 1) * q)
        by (nonlinear_arith)
        requires
            0 <= k,
            k + 2 <= reps + 1,
            q >= 0,
    ;
    assert(part =~= texts_from(runs, start + (k + 1) * q, q)) by {
        assert forall|d: int| 0 <= d < q implies part[d] == #[trigger] texts_from(
            runs,
            start + (k + 1) * q,
            q,
        )[d] by {
            assert(docs[(k + 1) * q + d] == part[d]);
        }
    }
    law_bytes_are_utf8(part);
}

/// Documents of one size make timed passes of one size: as many times it as a
/// pass has documents.
pub proof fn law_measure_of_equal_documents<E: Engine + ?Sized>(
    before: &E,
    after: &E,
    chunks: &[String],
    reps: usize,
    m: Measure,
    size: nat,
)
    requires
        exists|e: &mut E|
            &*e == before && &*final(e) == after && #[trigger] call_ensures(
                measure::<E>,
                (e, chunks, reps, true),
                m,
            ),
        0 < reps < chunks@.len(),
        size > 0,
        forall|i: int|
            0 <= i < chunks@.len() ==> encode_utf8((#[trigger] chunks@[i])@).len() == size,
        encode_utf8(contents(chunks@).flatten()).len() <= usize::MAX,
    ensures
        m.bytes == (chunks@.len() / (reps as nat + 1)) * size,
        match m.pace {
            Middle::One(s) => s.bytes == m.bytes,
            Middle::Two(s, t) => s.bytes == m.bytes && t.bytes == m.bytes,
        },
{
    let docs = contents(chunks@);
    let rn = reps as nat;
    let q = docs.len() / (rn + 1);
    assert forall|i: int| 0 <= i < docs.len() implies (#[trigger] docs[i]).len() > 0 by {
        assert(encode_utf8(chunks@[i]@).len() == size);
        crate::text::lemma_text_bytes(docs[i]);
    }
    lemma_slice_places(docs.len(), rn, 0);
    lemma_timed_places(docs, rn, rn);
    law_bytes_are_utf8(docs);
    let timed = sizes(docs, rn, true);
    assert forall|k: int| 0 <= k < reps implies #[trigger] timed[k] == q * size && timed[k]
        <= usize::MAX by {
        lemma_slice_places(docs.len(), rn, (k + 1) as nat);
        let part = docs.subrange(((k + 1) * q) as int, ((k + 2) * q) as int);
        assert((k + 1) * q + q == (k + 2) * q && (k + 2) * q <= (reps + 1) * q && 0 <= (k + 1) * q)
            by (nonlinear_arith)
            requires
                0 <= k,
                k + 2 <= reps + 1,
                q >= 0,
        ;
        assert forall|i: int| 0 <= i < part.len() implies encode_utf8(#[trigger] part[i]).len()
            == size by {
            assert(part[i] == chunks@[(k + 1) * q + i]@);
        }
        law_bytes_of_equal_texts(part, size);
        lemma_total_bytes_within(docs, (k + 1) * q, (k + 2) * q);
    }
    let nanos = choose|nanos: Seq<u64>|
        nanos.len() == timed.len() && are_readings(nanos) && is_median(
            #[trigger] samples_of(nanos, timed),
            m.pace,
        );
    let samples = samples_of(nanos, timed);
    assert(timed.last() == timed[reps - 1]);
    let order = choose|order: Seq<usize>| #[trigger]
        crate::order::in_order(samples, order) && m.pace == crate::stats::middle_along(
            samples,
            order,
        );
    let h = order.len() as int;
    assert(0 <= order[h / 2] < samples.len());
    if h % 2 == 0 {
        assert(0 <= order[h / 2 - 1] < samples.len());
    }
}

/// Without a warm-up every document is handed over twice: once under the clock,
/// all in one pass, and once more to be counted. The pace is the time of that one
/// pass over all the bytes.
pub proof fn law_cold_measure_times_everything_once<E: Engine + ?Sized>(
    before: &E,
    after: &E,
    chunks: &[String],
    reps: usize,
    m: Measure,
)
    requires
        exists|e: &mut E|
            &*e == before && &*final(e) == after && #[trigger] call_ensures(
                measure::<E>,
                (e, chunks, reps, false),
                m,
            ),
        encode_utf8(contents(chunks@).flatten()).len() <= usize::MAX,
    ensures
        ({
            let n = chunks@.len();
            let runs = after.runs();
            let start = before.runs().len() as int;
            &&& runs.len() == start + 2 * n
            &&& forall|k: int| 0 <= k < start ==> #[trigger] runs[k] == before.runs()[k]
            &&& forall|k: int| 0 <= k < n ==> runs[start + k].text == (#[trigger] chunks@[k])@
            &&& forall|k: int| 0 <= k < n ==> runs[start + n + k].text == (#[trigger] chunks@[k])@
            &&& m.bytes == encode_utf8(contents(chunks@).flatten()).len()
            &&& m.pace matches Middle::One(s) && s.bytes == m.bytes && is_reading(s.nanos)
            &&& !m.reused
            &&& m.tokens == ids_from(runs, start + n, n).flatten().len()
            &&& m.ids_hash == hash_of_ids(ids_from(runs, start + n, n).flatten())
        }),
{
    let docs = contents(chunks@);
    let n = docs.len();
    let runs = after.runs();
    let start = before.runs().len() as int;
    let all = handed(docs, reps as nat, false);
    assert(appended(before.runs(), runs, all));
    assert forall|k: int| 0 <= k < start implies #[trigger] runs[k] == before.runs()[k] by {
        assert(runs[k] == before.runs()[k]);
    }
    assert forall|k: int| 0 <= k < n implies runs[start + k].text == (#[trigger] chunks@[k])@ by {
        assert(all[k] == docs[k]);
    }
    assert forall|k: int| 0 <= k < n implies runs[start + n + k].text == (
    #[trigger] chunks@[k])@ by {
        assert(all[n + k] == docs[k]);
        assert(runs[start + (n + k)].text == all[n + k]);
    }
    law_bytes_are_utf8(docs);
    let timed = sizes(docs, reps as nat, false);
    let nanos = choose|nanos: Seq<u64>|
        nanos.len() == timed.len() && are_readings(nanos) && is_median(
            #[trigger] samples_of(nanos, timed),
            m.pace,
        );
    let samples = samples_of(nanos, timed);
    let order = choose|order: Seq<usize>| #[trigger]
        crate::order::in_order(samples, order) && m.pace == crate::stats::middle_along(
            samples,
            order,
        );
    assert(order.len() == 1);
    assert(0 <= order[0] < 1);
    assert(is_reading(nanos[0]));
    lemma_ids_flat(runs, start + n);
}

/// Where there is not a document for every pass, text is used again, and the
/// measurement says so: pass `i` gets the document that comes `i`th when they are
/// gone through over and over.
pub proof fn law_measure_owns_up_to_reuse<E: Engine + ?Sized>(
    before: &E,
    after: &E,
    chunks: &[String],
    reps: usize,
    m: Measure,
)
    requires
        exists|e: &mut E|
            &*e == before && &*final(e) == after && #[trigger] call_ensures(
                measure::<E>,
                (e, chunks, reps, true),
                m,
            ),
        0 < chunks@.len() <= reps,
        forall|i: int| 0 <= i < chunks@.len() ==> (#[trigger] chunks@[i])@.len() > 0,
    ensures
        m.reused,
        ({
            let n = chunks@.len();
            let runs = after.runs();
            let start = before.runs().len() as int;
            &&& runs.len() == start + (reps + 1) + n
            &&& forall|k: int|
                #![trigger runs[start + k]]
                0 <= k <= reps ==> runs[start + k].text == chunks@[k % n as int]@
            &&& forall|k: int|
                0 <= k < n ==> runs[start + (reps + 1) + k].text == (#[trigger] chunks@[k])@
        }),
{
    let docs = contents(chunks@);
    let n = docs.len();
    let rn = reps as nat;
    let runs = after.runs();
    let start = before.runs().len() as int;
    assert forall|i: int| 0 <= i < n implies (#[trigger] docs[i]).len() > 0 by {
        assert(chunks@[i]@.len() > 0);
    }
    let all = handed(docs, rn, true);
    lemma_reused_texts(docs, rn, rn);
    lemma_one_slice(docs, rn, 0);
    vstd::arithmetic::div_mod::lemma_small_mod(0, n);
    assert(appended(before.runs(), runs, all));
    assert(all.len() == rn + 1 + n);
    assert forall|k: int| #![trigger runs[start + k]] 0 <= k <= reps implies runs[start + k].text
        == chunks@[k % n as int]@ by {
        vstd::arithmetic::div_mod::lemma_mod_bound(k, n as int);
        if k > 0 {
            assert(all[k] == timed_texts(docs, rn, rn)[k - 1]);
        }
        assert(all[k] == docs[k % n as int]);
        assert(runs[start + k].text == all[k]);
    }
    assert forall|k: int| 0 <= k < n implies runs[start + (reps + 1) + k].text == (
    #[trigger] chunks@[k])@ by {
        assert(all[(rn + 1) + k] == docs[k]);
        assert(runs[start + ((rn + 1) + k)].text == all[(rn + 1) + k]);
    }
}

proof fn lemma_one_slice(docs: Seq<Seq<char>>, reps: nat, i: nat)
    requires
        0 < docs.len() <= reps,
        forall|i: int| 0 <= i < docs.len() ==> (#[trigger] docs[i]).len() > 0,
    ensures
        0 <= i % docs.len() < docs.len(),
        slice(docs, reps, i) == seq![docs[(i % docs.len()) as int]],
        total_bytes(slice(docs, reps, i)) > 0,
{
    let n = docs.len();
    vstd::arithmetic::div_mod::lemma_basic_div(n as int, (reps + 1) as int);
    assert(i * 1 == i) by (nonlinear_arith);
    vstd::arithmetic::div_mod::lemma_mod_bound(i as int, n as int);
    assert(slice(docs, reps, i) =~= seq![docs[(i % n) as int]]);
    lemma_some_bytes(slice(docs, reps, i));
}

proof fn lemma_reused_texts(docs: Seq<Seq<char>>, reps: nat, r: nat)
    requires
        0 < docs.len() <= reps,
        r <= reps,
        forall|i: int| 0 <= i < docs.len() ==> (#[trigger] docs[i]).len() > 0,
    ensures
        timed_texts(docs, reps, r).len() == r,
        forall|k: int|
            0 <= k < r ==> #[trigger] timed_texts(docs, reps, r)[k] == docs[(k + 1)
                % docs.len() as int],
    decreases r,
{
    if r > 0 {
        lemma_reused_texts(docs, reps, (r - 1) as nat);
        lemma_one_slice(docs, reps, r);
    }
}

/// Documents that are not empty, within what a machine can count, can be
/// measured: with a warm-up and at least one timed pass, or without one.
pub proof fn law_documents_can_be_measured<E: Engine + ?Sized>(
    chunks: &[String],
    reps: usize,
    warmup: bool,
)
    requires
        encode_utf8(contents(chunks@).flatten()).len() <= usize::MAX,
        warmup ==> 0 < reps < usize::MAX && chunks@.len() > 0,
        forall|i: int| 0 <= i < chunks@.len() ==> (#[trigger] chunks@[i])@.len() > 0,
    ensures
        forall|e: &mut E| #[trigger] call_requires(measure::<E>, (e, chunks, reps, warmup)),
{
    let docs = contents(chunks@);
    assert forall|i: int| 0 <= i < docs.len() implies (#[trigger] docs[i]).len() > 0 by {
        assert(chunks@[i]@.len() > 0);
    }
    law_bytes_are_utf8(docs);
    if warmup {
        if docs.len() >= reps + 1 {
            lemma_timed_places(docs, reps as nat, reps as nat);
        } else {
            lemma_one_slice(docs, reps as nat, reps as nat);
        }
    }
}

// ---------------------------------------------------------------------------
// Latency
// ---------------------------------------------------------------------------

/// The latency of `samples` timings, in nanoseconds.
pub fn latency_summary(samples: &[u64], document_bytes: usize) -> (m: LatencyMeasure)
    requires
        samples@.len() > 0,
    ensures
        is_percentile(samples@, 50, m.p50_nanos),
        is_percentile(samples@, 99, m.p99_nanos),
        m.p50_nanos <= m.p99_nanos,
        m.samples == samples@.len(),
        m.document_bytes == document_bytes,
{
    let p50_nanos: u64 = percentile(samples, 50);
    let p99_nanos: u64 = percentile(samples, 99);
    proof {
        law_percentiles_rise(samples@, 50, 99, p50_nanos, p99_nanos);
    }
    LatencyMeasure { p50_nanos, p99_nanos, samples: samples.len(), document_bytes }
}

/// Times each document but the first, once; the first warms the engine up.
pub fn measure_latency<E: Engine + ?Sized>(
    engine: &mut E,
    documents: &[String],
    document_bytes: usize,
) -> (r: Option<LatencyMeasure>)
    ensures
        r is None <==> documents@.len() < 2 || document_bytes == 0,
        r is None ==> final(engine).runs() == old(engine).runs(),
        r is Some ==> appended(
            old(engine).runs(),
            final(engine).runs(),
            contents(documents@),
        ),
        fresh(final(engine).runs(), old(engine).runs().len()),
        are_calls::<E>(final(engine).runs(), old(engine).runs().len()),
        final(engine).decodes() == old(engine).decodes(),
        r matches Some(m) ==> {
            &&& m.samples == documents@.len() - 1
            &&& m.document_bytes == document_bytes
            &&& m.p50_nanos <= m.p99_nanos
            &&& exists|nanos: Seq<u64>|
                nanos.len() == documents@.len() - 1 && are_readings(nanos) && #[trigger] is_percentile(
                    nanos,
                    50,
                    m.p50_nanos,
                ) && is_percentile(nanos, 99, m.p99_nanos)
        },
{
    if documents.len() < 2 || document_bytes == 0 {
        return None;
    }
    let ghost docs = contents(documents@);
    let mut out: Ids = encode_range(engine, documents, 0, 1, Vec::new());
    let mut samples: Vec<u64> = Vec::new();
    let mut i: usize = 1;
    while i < documents.len()
        invariant
            1 <= i <= documents@.len(),
            docs == contents(documents@),
            appended(old(engine).runs(), engine.runs(), docs.subrange(0, i as int)),
            fresh(engine.runs(), old(engine).runs().len()),
            are_calls::<E>(engine.runs(), old(engine).runs().len()),
            engine.decodes() == old(engine).decodes(),
            samples@.len() == i - 1,
            are_readings(samples@),
        decreases documents@.len() - i,
    {
        let ghost before = engine.runs();
        out.clear();
        let started = Instant::now();
        out = encode_into(engine, documents[i].as_str(), out);
        let spent: u64 = nanos_since(&started);
        let _ = black_box(&out);
        assert(is_reading(spent));
        assert(is_call::<E>(engine.runs().last()));
        samples.push(spent);
        proof {
            let done = docs.subrange(0, i as int);
            lemma_appended_one(before, engine.runs().last());
            lemma_appended_both(old(engine).runs(), before, engine.runs(), done, seq![docs[i as int]]);
            assert(docs.subrange(0, i + 1) =~= done + seq![docs[i as int]]);
        }
        i = i + 1;
    }
    assert(docs.subrange(0, docs.len() as int) =~= docs);
    Some(latency_summary(samples.as_slice(), document_bytes))
}

// ---------------------------------------------------------------------------
// Decoding
// ---------------------------------------------------------------------------

/// The number of ids of a list of id chunks.
pub open spec fn total_ids(chunks: Seq<Ids>) -> nat
    decreases chunks.len(),
{
    if chunks.len() == 0 {
        0
    } else {
        total_ids(chunks.drop_last()) + chunks.last()@.len()
    }
}

/// The texts of a list of decodes, one after the other.
pub open spec fn decoded_text(done: Seq<Decoded>) -> Seq<char> {
    together(done.map_values(|d: Decoded| d.text))
}

/// Whether a history went from `before` to `after` by decoding the chunks in
/// turn, from the first, over and over.
pub open spec fn in_turn(before: Seq<Decoded>, after: Seq<Decoded>, chunks: Seq<Ids>) -> bool {
    &&& before.len() <= after.len()
    &&& forall|k: int| 0 <= k < before.len() ==> after[k] == #[trigger] before[k]
    &&& forall|k: int|
        before.len() <= k < after.len() ==> (#[trigger] after[k]).ids == chunks[(k - before.len())
            % chunks.len() as int]@
}

fn count_ids(chunks: &[Ids]) -> (n: usize)
    requires
        total_ids(chunks@) <= usize::MAX,
    ensures
        n == total_ids(chunks@),
{
    let mut n: usize = 0;
    let mut i: usize = 0;
    while i < chunks.len()
        invariant
            i <= chunks@.len(),
            total_ids(chunks@) <= usize::MAX,
            n == total_ids(chunks@.take(i as int)),
        decreases chunks@.len() - i,
    {
        proof {
            lemma_total_ids_within(chunks@, i + 1);
            assert(chunks@.take(i + 1).drop_last() =~= chunks@.take(i as int));
        }
        n = n + chunks[i].len();
        i = i + 1;
    }
    assert(chunks@.take(chunks@.len() as int) =~= chunks@);
    n
}

proof fn lemma_total_ids_within(chunks: Seq<Ids>, to: int)
    requires
        0 <= to <= chunks.len(),
    ensures
        total_ids(chunks.take(to)) <= total_ids(chunks),
    decreases chunks.len(),
{
    if to == chunks.len() {
        assert(chunks.take(to) =~= chunks);
    } else {
        lemma_total_ids_within(chunks.drop_last(), to);
        assert(chunks.drop_last().take(to) =~= chunks.take(to));
    }
}

/// Position `i` of round `rep` is chunk `i`.
proof fn lemma_turn(rep: nat, n: nat, i: nat)
    requires
        i < n,
    ensures
        (rep * n + i) % n == i,
        rep * n + n == (rep + 1) * n,
{
    vstd::arithmetic::div_mod::lemma_mod_multiples_vanish(rep as int, i as int, n as int);
    assert(rep * n + n == (rep + 1) * n && n * rep + i == rep * n + i) by (nonlinear_arith);
    vstd::arithmetic::div_mod::lemma_small_mod(i, n);
}

/// What a decode measurement answers, given the decodes it made (`done`).
pub open spec fn is_decode_measure(
    chunks: Seq<Ids>,
    reps: nat,
    done: Seq<Decoded>,
    r: Result<DecodeMeasure, Unsupported>,
) -> bool {
    let n = chunks.len() as int;
    let probe = decoded_text(done.take(n));
    if total_ids(chunks) == 0 {
        done.len() == 0 && refused(r, "no reference ids to decode"@)
    } else {
        &&& done.len() <= n * (reps + 1)
        &&& r is Ok <==> done.len() == n * (reps + 1)
        &&& r matches Ok(d) ==> {
            &&& d.tokens == total_ids(chunks)
            &&& 0 < d.bytes == byte_count(probe)
            &&& d.text_hash == hash_of_text(probe)
            &&& exists|nanos: Seq<u64>|
                nanos.len() == reps && are_readings(nanos) && #[trigger] is_median(nanos, d.pace)
        }
        &&& done.len() >= n && byte_count(probe) == 0 ==> done.len() == n && refused(
            r,
            "decode produced no text"@,
        )
    }
}

/// The size and the hash of what a probe pass decoded, which must be some text.
pub fn settle_probe(text: &str) -> (r: Result<(usize, u64), Unsupported>)
    ensures
        byte_count(text@) == 0 ==> refused(r, "decode produced no text"@),
        byte_count(text@) > 0 ==> r is Ok && r->Ok_0.0 == byte_count(text@) && r->Ok_0.1
            == hash_of_text(text@),
{
    let bytes: usize = byte_len(text);
    if bytes == 0 {
        unsupported("decode produced no text")
    } else {
        Ok((bytes, text_hash(text)))
    }
}

/// Whether a measurement that made these decodes ended because the engine
/// refused the next one: it failed, and neither for want of ids nor of text.
pub open spec fn was_refused(
    chunks: Seq<Ids>,
    done: Seq<Decoded>,
    r: Result<DecodeMeasure, Unsupported>,
) -> bool {
    let n = chunks.len() as int;
    r is Err && total_ids(chunks) > 0 && !(done.len() >= n && byte_count(
        decoded_text(done.take(n)),
    ) == 0)
}

/// Measures decoding: a probe pass, which is hashed, and then `reps` timed
/// passes over the same ids.
///
/// An engine that cannot decode says so at its first refusal, which is handed
/// on as it is.
pub fn measure_decode<E: Engine + ?Sized>(engine: &mut E, id_chunks: &[Ids], reps: usize) -> (r:
    Result<DecodeMeasure, Unsupported>)
    requires
        total_ids(id_chunks@) <= usize::MAX,
        reps > 0 || total_ids(id_chunks@) == 0,
    ensures
        final(engine).runs() == old(engine).runs(),
        in_turn(old(engine).decodes(), final(engine).decodes(), id_chunks@),
        fresh_decodes(final(engine).decodes(), old(engine).decodes().len()),
        are_decode_calls::<E>(final(engine).decodes(), old(engine).decodes().len()),
        is_decode_measure(
            id_chunks@,
            reps as nat,
            final(engine).decodes().skip(old(engine).decodes().len() as int),
            r,
        ),
        was_refused(
            id_chunks@,
            final(engine).decodes().skip(old(engine).decodes().len() as int),
            r,
        ) ==> exists|
            e: &mut E,
            ids: &[u32],
            text: &mut String,
            answer: Result<(), Unsupported>,
        |
            e.decodes() == final(engine).decodes() && &*final(e) == &*final(engine) && text@.len()
                == 0 && ids@ == id_chunks@[(final(engine).decodes().len() - old(
                engine,
            ).decodes().len()) % id_chunks@.len() as int]@ && #[trigger] call_ensures(
                E::decode,
                (e, ids, text),
                answer,
            ) && answer is Err && answer->Err_0 == r->Err_0,
{
    let ghost d0 = engine.decodes();
    let ghost n = id_chunks@.len() as int;
    let tokens: usize = count_ids(id_chunks);
    if tokens == 0 {
        assert(engine.decodes().skip(d0.len() as int) =~= Seq::<Decoded>::empty());
        return unsupported("no reference ids to decode");
    }
    let mut out = String::new();
    let mut all = String::new();
    let mut i: usize = 0;
    assert(d0.skip(d0.len() as int).map_values(|d: Decoded| d.text) =~= Seq::empty());
    assert(n <= n * (reps + 1)) by (nonlinear_arith)
        requires
            n >= 0,
            reps >= 0,
    ;
    while i < id_chunks.len()
        invariant
            i <= id_chunks@.len(),
            n == id_chunks@.len(),
            n <= n * (reps + 1),
            total_ids(id_chunks@) > 0,
            reps > 0,
            d0 == old(engine).decodes(),
            engine.runs() == old(engine).runs(),
            engine.decodes().len() == d0.len() + i,
            in_turn(d0, engine.decodes(), id_chunks@),
            fresh_decodes(engine.decodes(), d0.len()),
            are_decode_calls::<E>(engine.decodes(), d0.len()),
            all@ == decoded_text(engine.decodes().skip(d0.len() as int)),
        decreases id_chunks@.len() - i,
    {
        let ghost before = engine.decodes();
        out.clear();
        let (text, answer) = decode_into(engine, id_chunks[i].as_slice(), out);
        out = text;
        match answer {
            Ok(_) => {
                assert(is_decode_call::<E>(engine.decodes().last()));
            },
            Err(e) => {
                proof {
                    lemma_strictly_less(i as int, n, reps as int);
                    vstd::arithmetic::div_mod::lemma_small_mod(i as nat, n as nat);
                }
                return Err(e);
            },
        }
        all.append(out.as_str());
        proof {
            let list = before.skip(d0.len() as int).map_values(|d: Decoded| d.text);
            lemma_together_push(list, out@);
            assert(engine.decodes().skip(d0.len() as int).map_values(|d: Decoded| d.text)
                =~= list.push(out@));
            vstd::arithmetic::div_mod::lemma_small_mod(i as nat, n as nat);
        }
        i = i + 1;
    }
    let ghost probe = engine.decodes();
    assert(probe.skip(d0.len() as int).take(n) =~= probe.skip(d0.len() as int));
    let (bytes, hash) = match settle_probe(all.as_str()) {
        Ok(found) => found,
        Err(e) => {
            proof {
                lemma_strictly_less(0, n, reps as int);
            }
            return Err(e);
        },
    };
    let mut samples: Vec<u64> = Vec::new();
    let mut rep: usize = 0;
    assert((rep + 1) * n == n) by (nonlinear_arith)
        requires
            rep == 0,
    ;
    while rep < reps
        invariant
            rep <= reps,
            reps > 0,
            n == id_chunks@.len(),
            n > 0,
            total_ids(id_chunks@) > 0,
            d0 == old(engine).decodes(),
            probe.len() == d0.len() + n,
            bytes > 0,
            bytes == byte_count(decoded_text(probe.skip(d0.len() as int).take(n))),
            probe.is_prefix_of(engine.decodes()),
            engine.runs() == old(engine).runs(),
            engine.decodes().len() == d0.len() + (rep + 1) * n,
            in_turn(d0, engine.decodes(), id_chunks@),
            fresh_decodes(engine.decodes(), d0.len()),
            are_decode_calls::<E>(engine.decodes(), d0.len()),
            samples@.len() == rep,
            are_readings(samples@),
        decreases reps - rep,
    {
        let t0 = Instant::now();
        let mut i: usize = 0;
        while i < id_chunks.len()
            invariant
                rep < reps,
                i <= id_chunks@.len(),
                n == id_chunks@.len(),
                n > 0,
                total_ids(id_chunks@) > 0,
                d0 == old(engine).decodes(),
                probe.len() == d0.len() + n,
                bytes > 0,
                bytes == byte_count(decoded_text(probe.skip(d0.len() as int).take(n))),
                probe.is_prefix_of(engine.decodes()),
                engine.runs() == old(engine).runs(),
                engine.decodes().len() == d0.len() + (rep + 1) * n + i,
                in_turn(d0, engine.decodes(), id_chunks@),
                fresh_decodes(engine.decodes(), d0.len()),
                are_decode_calls::<E>(engine.decodes(), d0.len()),
            decreases id_chunks@.len() - i,
        {
            proof {
                lemma_turn((rep + 1) as nat, n as nat, i as nat);
            }
            out.clear();
            let (text, answer) = decode_into(engine, id_chunks[i].as_slice(), out);
            out = text;
            match answer {
                Ok(_) => {
                    assert(is_decode_call::<E>(engine.decodes().last()));
                },
                Err(e) => {
                    proof {
                        let done = engine.decodes().skip(d0.len() as int);
                        assert(done.take(n) =~= probe.skip(d0.len() as int).take(n));
                        assert((rep + 1) * n + i < n * (reps + 1)) by (nonlinear_arith)
                            requires
                                rep + 1 <= reps,
                                i < n,
                        ;
                    }
                    return Err(e);
                },
            }
            let _ = black_box(&out);
            i = i + 1;
        }
        proof {
            assert((rep + 1) * n + n == (rep + 2) * n) by (nonlinear_arith);
        }
        let spent: u64 = nanos_since(&t0);
        assert(is_reading(spent));
        samples.push(spent);
        rep = rep + 1;
    }
    let pace = median(samples.as_slice());
    proof {
        let done = engine.decodes().skip(d0.len() as int);
        assert(done.take(n) =~= probe.skip(d0.len() as int).take(n));
        assert((reps + 1) * n == n * (reps + 1)) by (nonlinear_arith);
        assert(is_median(samples@, pace));
    }
    Ok(DecodeMeasure { pace, bytes, tokens, text_hash: hash })
}

/// Where an engine appends the documents that ids stand for, a decode
/// measurement that succeeds has the size and the hash of the documents
/// themselves, however often it timed them.
pub proof fn law_decode_gives_the_documents_back(
    docs: Seq<Seq<char>>,
    chunks: Seq<Ids>,
    reps: nat,
    before: Seq<Decoded>,
    after: Seq<Decoded>,
    r: Result<DecodeMeasure, Unsupported>,
    dec: spec_fn(Seq<u32>) -> Seq<char>,
)
    requires
        docs.len() == chunks.len(),
        forall|k: int| 0 <= k < docs.len() ==> dec((#[trigger] chunks[k])@) == docs[k],
        in_turn(before, after, chunks),
        fresh_decodes(after, before.len()),
        is_decode_measure(chunks, reps, after.skip(before.len() as int), r),
        appends_text(after, before.len(), dec),
    ensures
        r matches Ok(d) ==> d.bytes == byte_count(together(docs)) && d.text_hash == hash_of_text(
            together(docs),
        ) && d.tokens == total_ids(chunks),
{
    if r is Ok {
        let n = chunks.len() as int;
        let done = after.skip(before.len() as int);
        if n > 0 {
            assert(n <= n * (reps + 1)) by (nonlinear_arith)
                requires
                    n > 0,
                    reps >= 0,
            ;
            let texts = done.take(n).map_values(|d: Decoded| d.text);
            assert forall|k: int| 0 <= k < n implies #[trigger] texts[k] == docs[k] by {
                let at = before.len() + k;
                vstd::arithmetic::div_mod::lemma_small_mod(k as nat, n as nat);
                assert(after[at].ids == chunks[(at - before.len()) % n]@);
                assert(dec(chunks[k]@) == docs[k]);
                assert(after[at].given =~= Seq::empty());
                assert(Seq::<char>::empty() + docs[k] =~= docs[k]);
                assert(done.take(n)[k] == after[at]);
            }
            assert(texts =~= docs);
        }
    }
}

/// A probe pass alone is not the whole measurement.
proof fn lemma_strictly_less(i: int, n: int, reps: int)
    requires
        0 <= i < n,
        reps > 0,
    ensures
        i < n * (reps + 1),
        n < n * (reps + 1),
{
    assert(n < n * (reps + 1)) by (nonlinear_arith)
        requires
            n > 0,
            reps > 0,
    ;
}

/// Encodes every document and keeps the ids of each: the one id stream that
/// every engine's decode is measured over.
pub fn reference_ids<E: Engine + ?Sized>(engine: &mut E, chunks: &[String]) -> (ids: Vec<Ids>)
    ensures
        appended(old(engine).runs(), final(engine).runs(), contents(chunks@)),
        fresh(final(engine).runs(), old(engine).runs().len()),
        are_calls::<E>(final(engine).runs(), old(engine).runs().len()),
        final(engine).decodes() == old(engine).decodes(),
        ids@.len() == chunks@.len(),
        forall|k: int|
            0 <= k < chunks@.len() ==> (#[trigger] ids@[k])@ == final(engine).runs()[old(
                engine,
            ).runs().len() + k].ids,
{
    let ghost docs = contents(chunks@);
    let ghost start = engine.runs().len() as int;
    let mut ids: Vec<Ids> = Vec::new();
    let mut i: usize = 0;
    assert(docs.take(0) =~= Seq::empty());
    while i < chunks.len()
        invariant
            i <= chunks@.len(),
            docs == contents(chunks@),
            start == old(engine).runs().len(),
            appended(old(engine).runs(), engine.runs(), docs.take(i as int)),
            fresh(engine.runs(), old(engine).runs().len()),
            are_calls::<E>(engine.runs(), old(engine).runs().len()),
            engine.decodes() == old(engine).decodes(),
            ids@.len() == i,
            forall|k: int| 0 <= k < i ==> (#[trigger] ids@[k])@ == engine.runs()[start + k].ids,
        decreases chunks@.len() - i,
    {
        let ghost before = engine.runs();
        let out = encode_into(engine, chunks[i].as_str(), Vec::new());
        assert(is_call::<E>(engine.runs().last()));
        ids.push(out);
        proof {
            let done = docs.take(i as int);
            lemma_appended_one(before, engine.runs().last());
            lemma_appended_both(old(engine).runs(), before, engine.runs(), done, seq![docs[i as int]]);
            assert(docs.take(i + 1) =~= done + seq![docs[i as int]]);
        }
        i = i + 1;
    }
    assert(docs.take(docs.len() as int) =~= docs);
    ids
}

/// Latency is measured where there are two documents and their size is not zero.
/// Then every document is handed over once, in order and with an empty buffer, and
/// every one but the first is a sample: its time is one reading of the clock. Half
/// of the samples or more are no longer than the median reported, and less than
/// half are shorter; and the same of ninety-nine in a hundred.
pub proof fn law_latency_is_by_document<E: Engine + ?Sized>(
    before: &E,
    after: &E,
    documents: &[String],
    document_bytes: usize,
    r: Option<LatencyMeasure>,
)
    requires
        exists|e: &mut E|
            &*e == before && &*final(e) == after && #[trigger] call_ensures(
                measure_latency::<E>,
                (e, documents, document_bytes),
                r,
            ),
    ensures
        r is None <==> documents@.len() < 2 || document_bytes == 0,
        r is None ==> after.runs() == before.runs(),
        r matches Some(m) ==> {
            let n = documents@.len();
            let start = before.runs().len() as int;
            &&& after.runs().len() == start + n
            &&& forall|k: int| 0 <= k < start ==> #[trigger] after.runs()[k] == before.runs()[k]
            &&& forall|k: int|
                0 <= k < n ==> after.runs()[start + k].text == (#[trigger] documents@[k])@
                    && after.runs()[start + k].given.len() == 0
            &&& m.samples == n - 1
            &&& m.document_bytes == document_bytes
            &&& exists|nanos: Seq<u64>| #[trigger]
                are_readings(nanos) && nanos.len() == n - 1 && nanos.contains(m.p50_nanos)
                    && nanos.contains(m.p99_nanos) && 2 * nanos.filter(
                    |x: u64| x <= m.p50_nanos,
                ).len() >= n - 1 && 2 * (n - 1 - nanos.filter(|x: u64| m.p50_nanos <= x).len()) < n
                    - 1 && 100 * nanos.filter(|x: u64| x <= m.p99_nanos).len() >= 99 * (n - 1)
                    && 100 * (n - 1 - nanos.filter(|x: u64| m.p99_nanos <= x).len()) < 99 * (n - 1)
        },
{
    if let Some(m) = r {
        let docs = contents(documents@);
        let n = docs.len();
        let start = before.runs().len() as int;
        assert(documents@.len() == documents.len());
        assert(appended(before.runs(), after.runs(), docs));
        assert forall|k: int| 0 <= k < start implies #[trigger] after.runs()[k]
            == before.runs()[k] by {
            assert(after.runs()[k] == before.runs()[k]);
        }
        assert forall|k: int| 0 <= k < n implies after.runs()[start + k].text == (
        #[trigger] documents@[k])@ && after.runs()[start + k].given.len() == 0 by {
            assert(docs[k] == documents@[k]@);
        }
        let nanos = choose|nanos: Seq<u64>|
            nanos.len() == documents@.len() - 1 && are_readings(nanos) && #[trigger] is_percentile(
                nanos,
                50,
                m.p50_nanos,
            ) && is_percentile(nanos, 99, m.p99_nanos);
        law_percentile_divides(nanos, 50, m.p50_nanos);
        law_percentile_divides(nanos, 99, m.p99_nanos);
        let a = m.p50_nanos;
        let b = m.p99_nanos;
        assert((|x: u64| x.precedes(&a)) =~= (|x: u64| x <= m.p50_nanos));
        assert((|x: u64| a.precedes(&x)) =~= (|x: u64| m.p50_nanos <= x));
        assert((|x: u64| x.precedes(&b)) =~= (|x: u64| x <= m.p99_nanos));
        assert((|x: u64| b.precedes(&x)) =~= (|x: u64| m.p99_nanos <= x));
        assert(are_readings(nanos));
    }
}

proof fn lemma_ids_counted(chunks: Seq<Ids>)
    ensures
        total_ids(chunks) == chunks.map_values(|c: Ids| c@).flatten().len(),
    decreases chunks.len(),
{
    let f = |c: Ids| c@;
    if chunks.len() == 0 {
        assert(chunks.map_values(f) =~= Seq::empty());
        assert(chunks.map_values(f).flatten() =~= Seq::<u32>::empty());
    } else {
        let less = chunks.drop_last();
        lemma_ids_counted(less);
        assert(chunks.map_values(f) =~= less.map_values(f).push(f(chunks.last())));
        less.map_values(f).lemma_flatten_push(f(chunks.last()));
    }
}

/// A decode measurement that succeeds has decoded all the ids once to look at them
/// and `reps` times under the clock, always in order and into an empty text. It
/// counts the ids; the size and the hash are those of the text of the first pass,
/// in UTF-8; and the pace is the median of one reading of the clock per pass.
/// There is nothing to decode exactly where there are no ids.
pub proof fn law_decode_goes_over_the_ids<E: Engine + ?Sized>(
    before: &E,
    after: &E,
    id_chunks: &[Ids],
    reps: usize,
    r: Result<DecodeMeasure, Unsupported>,
)
    requires
        exists|e: &mut E|
            &*e == before && &*final(e) == after && #[trigger] call_ensures(
                measure_decode::<E>,
                (e, id_chunks, reps),
                r,
            ),
    ensures
        after.runs() == before.runs(),
        ({
            let n = id_chunks@.len();
            let ids = id_chunks@.map_values(|c: Ids| c@).flatten();
            let done = after.decodes().skip(before.decodes().len() as int);
            let first = Seq::new(n, |k: int| done[k].text).flatten();
            &&& ids.len() == 0 ==> refused(r, "no reference ids to decode"@) && done.len() == 0
            &&& before.decodes().len() <= after.decodes().len()
            &&& forall|k: int|
                0 <= k < before.decodes().len() ==> #[trigger] after.decodes()[k]
                    == before.decodes()[k]
            &&& forall|k: int|
                0 <= k < done.len() ==> (#[trigger] done[k]).ids == id_chunks@[k % n as int]@
                    && done[k].given.len() == 0
            &&& r matches Ok(d) ==> {
                &&& done.len() == n * (reps + 1)
                &&& d.tokens == ids.len()
                &&& 0 < d.bytes == encode_utf8(first).len()
                &&& d.text_hash == hash_of_text(first)
                &&& exists|nanos: Seq<u64>|
                    nanos.len() == reps && are_readings(nanos) && #[trigger] is_median(
                        nanos,
                        d.pace,
                    )
            }
        }),
{
    let n = id_chunks@.len();
    let start = before.decodes().len() as int;
    let done = after.decodes().skip(start);
    lemma_ids_counted(id_chunks@);
    assert(in_turn(before.decodes(), after.decodes(), id_chunks@));
    assert forall|k: int| 0 <= k < before.decodes().len() implies #[trigger] after.decodes()[k]
        == before.decodes()[k] by {
        assert(after.decodes()[k] == before.decodes()[k]);
    }
    assert forall|k: int| 0 <= k < done.len() implies (#[trigger] done[k]).ids == id_chunks@[k
        % n as int]@ && done[k].given.len() == 0 by {
        assert(done[k] == after.decodes()[start + k]);
    }
    if r is Ok && total_ids(id_chunks@) > 0 {
        assert(n <= n * (reps + 1)) by (nonlinear_arith)
            requires
                n >= 0,
                reps >= 0,
        ;
        let texts = Seq::new(n, |k: int| done[k].text);
        assert(done.take(n as int).map_values(|d: Decoded| d.text) =~= texts);
        lemma_together_flat(texts);
    }
}

/// A decode measurement of some ids fails in one of two ways: the first pass went
/// through and made no text, or the engine refused the ids whose turn it was, and
/// then its own words are handed on.
pub proof fn law_decode_fails_for_a_reason<E: Engine + ?Sized>(
    before: &E,
    after: &E,
    id_chunks: &[Ids],
    reps: usize,
    why: Unsupported,
)
    requires
        exists|e: &mut E|
            &*e == before && &*final(e) == after && #[trigger] call_ensures(
                measure_decode::<E>,
                (e, id_chunks, reps),
                Err(why),
            ),
        id_chunks@.map_values(|c: Ids| c@).flatten().len() > 0,
    ensures
        ({
            let n = id_chunks@.len();
            let done = after.decodes().skip(before.decodes().len() as int);
            let first = Seq::new(n, |k: int| done[k].text).flatten();
            if done.len() >= n && encode_utf8(first).len() == 0 {
                why.0@ == "decode produced no text"@ && done.len() == n
            } else {
                &&& done.len() < n * (reps + 1)
                &&& exists|e: &mut E, ids: &[u32], text: &mut String, answer: Result<(), Unsupported>|
                    {
                        &&& #[trigger] call_ensures(E::decode, (e, ids, text), answer)
                        &&& answer == Err::<(), Unsupported>(why)
                        &&& ids@ == id_chunks@[done.len() as int % n as int]@
                        &&& text@.len() == 0
                        &&& &*final(e) == after
                    }
            }
        }),
{
    let n = id_chunks@.len();
    let done = after.decodes().skip(before.decodes().len() as int);
    lemma_ids_counted(id_chunks@);
    let texts = Seq::new(n, |k: int| done[k].text);
    if done.len() >= n {
        assert(done.take(n as int).map_values(|d: Decoded| d.text) =~= texts);
        lemma_together_flat(texts);
    }
    assert(n <= n * (reps + 1)) by (nonlinear_arith)
        requires
            n >= 0,
            reps >= 0,
    ;
}

/// The reference's ids are those it gave for each document, handed over once, in
/// order and with an empty buffer.
pub proof fn law_reference_ids_are_by_document<E: Engine + ?Sized>(
    before: &E,
    after: &E,
    chunks: &[String],
    ids: Vec<Ids>,
    k: int,
)
    requires
        exists|e: &mut E|
            &*e == before && &*final(e) == after && #[trigger] call_ensures(
                reference_ids::<E>,
                (e, chunks),
                ids,
            ),
        0 <= k < chunks@.len(),
    ensures
        ids@.len() == chunks@.len(),
        after.runs().len() == before.runs().len() + chunks@.len(),
        after.runs()[before.runs().len() + k] == (Run {
            text: chunks@[k]@,
            given: Seq::empty(),
            ids: ids@[k]@,
        }),
{
    let run = after.runs()[before.runs().len() + k];
    assert(contents(chunks@)[k] == chunks@[k]@);
    assert(run.given =~= Seq::empty());
}

/// A latency is the time that half of the samples do not exceed, and the time that all but
/// a hundredth do not: each is one of the samples.
pub proof fn law_latency_is_of_the_samples(
    samples: &[u64],
    document_bytes: usize,
    m: LatencyMeasure,
)
    requires
        samples@.len() > 0,
        call_ensures(latency_summary, (samples, document_bytes), m),
    ensures
        samples@.contains(m.p50_nanos) && samples@.contains(m.p99_nanos),
        100 * samples@.filter(|y: u64| y <= m.p50_nanos).len() >= 50 * samples@.len(),
        100 * (samples@.len() - samples@.filter(|y: u64| m.p50_nanos <= y).len()) < 50
            * samples@.len(),
        100 * samples@.filter(|y: u64| y <= m.p99_nanos).len() >= 99 * samples@.len(),
        100 * (samples@.len() - samples@.filter(|y: u64| m.p99_nanos <= y).len()) < 99
            * samples@.len(),
        m.samples == samples@.len(),
        m.document_bytes == document_bytes,
{
    assert(samples@.len() == samples.len());
    let (x, y) = (m.p50_nanos, m.p99_nanos);
    crate::stats::law_percentile_divides(samples@, 50, x);
    crate::stats::law_percentile_divides(samples@, 99, y);
    assert((|v: u64| v.precedes(&x)) =~= (|v: u64| v <= m.p50_nanos));
    assert((|v: u64| x.precedes(&v)) =~= (|v: u64| m.p50_nanos <= v));
    assert((|v: u64| v.precedes(&y)) =~= (|v: u64| v <= m.p99_nanos));
    assert((|v: u64| y.precedes(&v)) =~= (|v: u64| m.p99_nanos <= v));
}

/// A probe that decoded some text answers with its bytes and its hash, and one that
/// decoded none is refused.
pub proof fn law_probes_need_text(text: &str, r: Result<(usize, u64), Unsupported>, hash: u64)
    requires
        call_ensures(settle_probe, (text,), r),
        call_ensures(text_hash, (text,), hash),
    ensures
        r is Ok <==> text@.len() > 0,
        r is Ok ==> r->Ok_0.0 == encode_utf8(text@).len(),
        r is Ok ==> r->Ok_0.1 == hash,
        r is Err ==> r->Err_0.0@ == "decode produced no text"@,
{
    crate::text::lemma_text_bytes(text@);
}

/// Whether the texts from one place to the next are of this many bytes, and are neither
/// without bytes nor more than `most`.
spec fn is_cut(
    texts: Seq<Seq<char>>,
    sizes: Seq<nat>,
    cuts: Seq<int>,
    most: nat,
    limit: nat,
    k: int,
) -> bool {
    &&& 0 <= cuts[k] <= cuts[k + 1] <= texts.len()
    &&& cuts[k + 1] - cuts[k] <= most
    &&& sizes[k] == total_bytes(texts.subrange(cuts[k], cuts[k + 1]))
    &&& 0 < sizes[k] <= limit
}

/// Whether places cut a list of texts into stretches of these many bytes.
spec fn are_cuts(
    texts: Seq<Seq<char>>,
    sizes: Seq<nat>,
    cuts: Seq<int>,
    most: nat,
    limit: nat,
) -> bool {
    &&& cuts.len() == sizes.len() + 1
    &&& cuts[0] == 0 && cuts.last() == texts.len()
    &&& forall|k: int|
        0 <= k < sizes.len() ==> #[trigger] is_cut(texts, sizes, cuts, most, limit, k)
}

proof fn lemma_cuts(docs: Seq<Seq<char>>, reps: nat, r: nat)
    ensures
        timed_sizes(docs, reps, r).len() <= r,
        exists|cuts: Seq<int>| #[trigger]
            are_cuts(
                timed_texts(docs, reps, r),
                timed_sizes(docs, reps, r),
                cuts,
                per_slice(docs.len(), reps),
                total_bytes(docs),
            ),
    decreases r,
{
    let (most, limit) = (per_slice(docs.len(), reps), total_bytes(docs));
    let texts = timed_texts(docs, reps, r);
    let sizes = timed_sizes(docs, reps, r);
    if r == 0 {
        assert(are_cuts(texts, sizes, seq![0int], most, limit));
    } else {
        let s = (r - 1) as nat;
        lemma_cuts(docs, reps, s);
        let (less, fewer) = (timed_texts(docs, reps, s), timed_sizes(docs, reps, s));
        let cuts = choose|cuts: Seq<int>| #[trigger] are_cuts(less, fewer, cuts, most, limit);
        let part = slice(docs, reps, r);
        if total_bytes(part) > 0 {
            lemma_slice_bounds(docs.len(), reps, r);
            lemma_total_bytes_within(
                docs,
                slice_start(docs.len(), reps, r) as int,
                slice_end(docs.len(), reps, r) as int,
            );
            let more = cuts.push(texts.len() as int);
            assert forall|k: int| 0 <= k < sizes.len() implies #[trigger] is_cut(
                texts,
                sizes,
                more,
                most,
                limit,
                k,
            ) by {
                if k < fewer.len() {
                    assert(is_cut(less, fewer, cuts, most, limit, k));
                    assert(more[k] == cuts[k] && more[k + 1] == cuts[k + 1]);
                    assert(sizes[k] == fewer[k]);
                    assert(texts.subrange(more[k], more[k + 1]) =~= less.subrange(
                        cuts[k],
                        cuts[k + 1],
                    ));
                } else {
                    assert(more[k] == cuts.last());
                    assert(texts.subrange(more[k], more[k + 1]) =~= part);
                }
            }
            assert(more[0] == cuts[0]);
            assert(are_cuts(texts, sizes, more, most, limit));
        } else {
            assert(are_cuts(texts, sizes, cuts, most, limit));
        }
    }
}

/// Whether a sample holds a time, and the bytes that UTF-8 writes the texts of some runs in:
/// those from one place to another, which are not without bytes, nor more than `most`.
pub open spec fn is_sample_of(s: Sample, runs: Seq<Run>, from: int, to: int, most: nat) -> bool {
    &&& is_reading(s.nanos)
    &&& from <= to <= from + most
    &&& s.bytes == encode_utf8(texts_from(runs, from, (to - from) as nat).flatten()).len()
    &&& s.bytes > 0
}

/// Whether samples are those of passes that follow each other, from one place of a history
/// to the next.
pub open spec fn are_samples_of(
    samples: Seq<Sample>,
    runs: Seq<Run>,
    cuts: Seq<int>,
    most: nat,
) -> bool {
    &&& cuts.len() == samples.len() + 1
    &&& forall|k: int|
        0 <= k < samples.len() ==> is_sample_of(
            #[trigger] samples[k],
            runs,
            cuts[k],
            cuts[k + 1],
            most,
        )
}

proof fn lemma_sample_bytes(
    docs: Seq<Seq<char>>,
    texts: Seq<Seq<char>>,
    timed: Seq<nat>,
    places: Seq<int>,
    most: nat,
    runs: Seq<Run>,
    first: int,
    s: Sample,
    k: int,
)
    requires
        total_bytes(docs) <= usize::MAX,
        0 <= k < timed.len(),
        are_cuts(texts, timed, places, most, total_bytes(docs)),
        forall|j: int| 0 <= j < texts.len() ==> runs[first + j].text == #[trigger] texts[j],
        is_reading(s.nanos),
        s.bytes == timed[k] as usize,
    ensures
        is_sample_of(s, runs, first + places[k], first + places[k + 1], most),
{
    assert(is_cut(texts, timed, places, most, total_bytes(docs), k));
    let part = texts.subrange(places[k], places[k + 1]);
    let seen = texts_from(runs, first + places[k], part.len());
    assert forall|d: int| 0 <= d < part.len() implies part[d] == #[trigger] seen[d] by {
        assert(texts[places[k] + d] == part[d]);
    }
    assert(part =~= seen);
    law_bytes_are_utf8(part);
}

proof fn lemma_timed_samples(
    docs: Seq<Seq<char>>,
    reps: nat,
    before: Seq<Run>,
    runs: Seq<Run>,
    m: Measure,
    most: nat,
)
    requires
        most == per_slice(docs.len(), reps),
        total_bytes(docs) <= usize::MAX,
        timed_sizes(docs, reps, reps).len() > 0,
        appended(before, runs, handed(docs, reps, true)),
        is_measure(docs, reps, true, runs, m),
    ensures
        docs.len() > 0,
        forall|k: int|
            0 <= k < docs.len() ==> runs[runs.len() - docs.len() + k].text == #[trigger] docs[k],
        exists|samples: Seq<Sample>, cuts: Seq<int>|
            {
                &&& 0 < samples.len() <= reps && #[trigger] is_median(samples, m.pace)
                &&& m.bytes == samples.last().bytes
                &&& #[trigger] are_samples_of(samples, runs, cuts, most)
                &&& cuts[0] == before.len() + most
                &&& cuts.last() == runs.len() - docs.len()
            },
{
    let n = docs.len();
    let texts = timed_texts(docs, reps, reps);
    let timed = timed_sizes(docs, reps, reps);
    let all = handed(docs, reps, true);
    lemma_cuts(docs, reps, reps);
    let places = choose|places: Seq<int>| #[trigger]
        are_cuts(texts, timed, places, most, total_bytes(docs));
    if n == 0 {
        lemma_no_texts(docs, reps, reps);
    }
    lemma_slice_bounds(n, reps, 0);
    assert(0 * most == 0) by (nonlinear_arith);
    vstd::arithmetic::div_mod::lemma_small_mod(0, n);
    lemma_few_in_a_slice(n, reps);
    assert(slice(docs, reps, 0).len() == most);
    let start = before.len() as int;
    let first = start + most;
    let last = runs.len() - n;
    assert(last == first + texts.len());
    assert forall|k: int| 0 <= k < n implies runs[last + k].text == #[trigger] docs[k] by {
        let at = most + texts.len() + k;
        assert(all[at] == docs[k]);
        assert(runs[start + at].text == all[at]);
    }
    assert forall|j: int| 0 <= j < texts.len() implies runs[first + j].text == #[trigger] texts[j] by {
        assert(all[most + j] == texts[j]);
        assert(runs[start + (most + j)].text == all[most + j]);
    }
    let nanos = choose|nanos: Seq<u64>|
        nanos.len() == timed.len() && are_readings(nanos) && is_median(
            #[trigger] samples_of(nanos, timed),
            m.pace,
        );
    let samples = samples_of(nanos, timed);
    let cuts = places.map_values(|p: int| first + p);
    assert forall|k: int| 0 <= k < samples.len() implies is_sample_of(
        #[trigger] samples[k],
        runs,
        cuts[k],
        cuts[k + 1],
        most,
    ) by {
        assert(is_reading(nanos[k]));
        lemma_sample_bytes(docs, texts, timed, places, most, runs, first, samples[k], k);
    }
    assert(is_cut(texts, timed, places, most, total_bytes(docs), timed.len() - 1));
    assert(samples.last().bytes == timed.last() as usize);
    assert(are_samples_of(samples, runs, cuts, most));
    assert(is_median(samples, m.pace));
    assert(samples.len() <= reps);
    assert(m.bytes == timed.last());
    assert(m.bytes == samples.last().bytes);
}

/// With a warm-up, whatever the documents: after the warm-up's runs come those of the timed
/// passes, one pass behind the other, and then one for each document. Each timed pass has a
/// sample, which holds a time and the bytes that UTF-8 writes the pass's texts in; no pass
/// has more documents than the warm-up. The pace is the median of the samples, and the size
/// reported that of the last.
pub proof fn law_timed_bytes_are_those_handed_over<E: Engine + ?Sized>(
    before: &E,
    after: &E,
    chunks: &[String],
    reps: usize,
    m: Measure,
    most: nat,
)
    requires
        exists|e: &mut E|
            &*e == before && &*final(e) == after && #[trigger] call_ensures(
                measure::<E>,
                (e, chunks, reps, true),
                m,
            ),
        encode_utf8(contents(chunks@).flatten()).len() <= usize::MAX,
        call_ensures(has_timed_text, (chunks, reps), true),
        chunks@.len() > reps ==> most == chunks@.len() / (reps as nat + 1),
        chunks@.len() <= reps ==> most == 1,
    ensures
        ({
            let n = chunks@.len();
            let runs = after.runs();
            let last = runs.len() - n;
            &&& forall|k: int| 0 <= k < n ==> runs[last + k].text == (#[trigger] chunks@[k])@
            &&& exists|samples: Seq<Sample>, cuts: Seq<int>|
                {
                    &&& 0 < samples.len() <= reps && #[trigger] is_median(samples, m.pace)
                    &&& m.bytes == samples.last().bytes
                    &&& #[trigger] are_samples_of(samples, runs, cuts, most)
                    &&& cuts[0] == before.runs().len() + most
                    &&& cuts.last() == last
                }
            &&& m.reused <==> n <= reps
            &&& m.tokens == ids_from(runs, last, n).flatten().len()
            &&& m.ids_hash == hash_of_ids(ids_from(runs, last, n).flatten())
        }),
{
    let docs = contents(chunks@);
    let runs = after.runs();
    law_bytes_are_utf8(docs);
    if docs.len() > reps {
        lemma_slice_places(docs.len(), reps as nat, 0);
    } else {
        vstd::arithmetic::div_mod::lemma_basic_div(docs.len() as int, reps + 1);
    }
    lemma_timed_samples(docs, reps as nat, before.runs(), runs, m, most);
    let last = runs.len() - docs.len();
    assert forall|k: int| 0 <= k < chunks@.len() implies runs[last + k].text == (
    #[trigger] chunks@[k])@ by {
        assert(docs[k] == chunks@[k]@);
    }
    lemma_ids_flat(runs, last);
}

/// No documents make no texts.
proof fn lemma_no_texts(docs: Seq<Seq<char>>, reps: nat, r: nat)
    requires
        docs.len() == 0,
    ensures
        timed_sizes(docs, reps, r).len() == 0,
    decreases r,
{
    if r > 0 {
        lemma_no_texts(docs, reps, (r - 1) as nat);
        assert(slice(docs, reps, r) =~= Seq::<Seq<char>>::empty());
    }
}

/// A slice fits the documents.
proof fn lemma_few_in_a_slice(n: nat, reps: nat)
    requires
        n > 0,
    ensures
        0 < per_slice(n, reps) <= n,
{
    vstd::arithmetic::div_mod::lemma_div_nonincreasing(n as int, (reps + 1) as int);
}

/// There is something to time exactly where one of the timed passes is given a document that
/// is not empty: pass `i` gets the `most` documents from place `i * most` on, the places
/// being counted over and over, as far as the documents go.
pub proof fn law_timed_text_is_found(chunks: &[String], reps: usize, r: bool, most: nat)
    requires
        reps < usize::MAX,
        encode_utf8(contents(chunks@).flatten()).len() <= usize::MAX,
        call_ensures(has_timed_text, (chunks, reps), r),
        chunks@.len() > 0,
        chunks@.len() > reps ==> most == chunks@.len() / (reps as nat + 1),
        chunks@.len() <= reps ==> most == 1,
    ensures
        r <==> exists|i: int, d: int|
            {
                &&& 1 <= i <= reps && 0 <= d < chunks@.len()
                &&& #[trigger] ((i * most) % chunks@.len() as int) <= d < (i * most)
                    % chunks@.len() as int + most
                &&& (#[trigger] chunks@[d])@.len() > 0
            },
{
    let docs = contents(chunks@);
    let n = docs.len();
    let rn = reps as nat;
    if n > reps {
        lemma_slice_places(n, rn, 0);
    } else {
        vstd::arithmetic::div_mod::lemma_basic_div(n as int, reps + 1);
    }
    assert(most == per_slice(n, rn));
    lemma_some_slice(docs, rn, rn);
    if r {
        let i = choose|i: nat|
            1 <= i <= rn && total_bytes(#[trigger] slice(docs, rn, i)) > 0;
        lemma_slice_bounds(n, rn, i);
        let part = slice(docs, rn, i);
        let k = lemma_text_in(part);
        let d = slice_start(n, rn, i) + k;
        assert(part[k] == docs[d]);
        assert(chunks@[d]@.len() > 0);
        assert((i as int * most) % n as int == slice_start(n, rn, i));
    }
    if exists|i: int, d: int|
        {
            &&& 1 <= i <= reps && 0 <= d < chunks@.len()
            &&& #[trigger] ((i * most) % chunks@.len() as int) <= d < (i * most)
                % chunks@.len() as int + most
            &&& (#[trigger] chunks@[d])@.len() > 0
        } {
        let (i, d) = choose|i: int, d: int|
            {
                &&& 1 <= i <= reps && 0 <= d < chunks@.len()
                &&& #[trigger] ((i * most) % chunks@.len() as int) <= d < (i * most)
                    % chunks@.len() as int + most
                &&& (#[trigger] chunks@[d])@.len() > 0
            };
        let at = i as nat;
        lemma_slice_bounds(n, rn, at);
        let part = slice(docs, rn, at);
        assert((at * most) % n == (i * most) % n as int);
        let k = d - slice_start(n, rn, at);
        assert(part[k] == docs[d]);
        lemma_total_bytes_within(part, k, k + 1);
        assert(part.subrange(k, k + 1) =~= seq![docs[d]]);
        assert(seq![docs[d]].last() == docs[d]);
        crate::text::lemma_text_bytes(docs[d]);
        assert(total_bytes(part) > 0);
        assert(total_bytes(slice(docs, rn, at)) > 0);
    }
}

proof fn lemma_some_slice(docs: Seq<Seq<char>>, reps: nat, r: nat)
    ensures
        timed_sizes(docs, reps, r).len() > 0 <==> exists|i: nat|
            1 <= i <= r && total_bytes(#[trigger] slice(docs, reps, i)) > 0,
    decreases r,
{
    if r > 0 {
        lemma_some_slice(docs, reps, (r - 1) as nat);
        if total_bytes(slice(docs, reps, r)) > 0 {
            assert(1 <= r <= r);
        }
    }
}

/// Bytes come from some text.
proof fn lemma_text_in(list: Seq<Seq<char>>) -> (k: int)
    requires
        total_bytes(list) > 0,
    ensures
        0 <= k < list.len(),
        list[k].len() > 0,
    decreases list.len(),
{
    if list.len() == 0 {
        0
    } else if list.last().len() > 0 {
        list.len() - 1
    } else {
        crate::text::lemma_text_bytes(list.last());
        lemma_text_in(list.drop_last())
    }
}

/// Whatever is measured, every text is encoded into an empty buffer, what was encoded before
/// stays in the history as it was, and nothing is decoded.
pub proof fn law_measure_starts_with_empty_buffers<E: Engine + ?Sized>(
    before: &E,
    after: &E,
    chunks: &[String],
    reps: usize,
    warmup: bool,
    m: Measure,
    k: int,
)
    requires
        exists|e: &mut E|
            &*e == before && &*final(e) == after && #[trigger] call_ensures(
                measure::<E>,
                (e, chunks, reps, warmup),
                m,
            ),
        0 <= k < after.runs().len(),
    ensures
        before.runs().len() <= after.runs().len(),
        k < before.runs().len() ==> after.runs()[k] == before.runs()[k],
        k >= before.runs().len() ==> after.runs()[k].given.len() == 0,
        after.decodes() == before.decodes(),
{
}

}
