//! The footprint of an engine: how its workers are set up and warmed in a
//! process of their own, what that process is asked, and how its answers are
//! read.

use crate::engine::{appended, batch_texts, fresh, Engine, Info};
use crate::json::{
    find_member, member, members, members_of, number_at, number_value, pairs, string_in,
    string_value, whole_in, whole_value,
};
use crate::number::Real;
use crate::report::text_of;
use crate::scaling::{encode_one, law_one_by_one, one_by_one, ScalingMode};
use crate::scan::{begins, contents, lines, split_lines, stands_at, trim_start};
use crate::stats::{is_median, lemma_some_median, lemma_the_median, median, the_median, Middle};
use crate::text::{chars_of, count_text, decimal, same, string_of};
use vstd::prelude::*;
use vstd::string::StringExecFns;

verus! {

// ---------------------------------------------------------------------------
// Workers
// ---------------------------------------------------------------------------

/// The workers of a footprint measurement: one engine with a pool of its own,
/// or one instance per worker.
pub struct Workers<E> {
    pub engines: Vec<E>,
    pub info: Info,
    pub native: bool,
}

impl<E> Workers<E> {
    /// Who makes the threads, as it is reported.
    pub open spec fn parallelism(self) -> Seq<char> {
        if self.native {
            "native-threads"@
        } else {
            "independent-instances"@
        }
    }

    /// `parallelism`, computed.
    pub fn parallelism_text(&self) -> (r: &'static str)
        ensures
            r@ == self.parallelism(),
    {
        if self.native {
            "native-threads"
        } else {
            "independent-instances"
        }
    }
}

/// Whether the engine's own pool is used: it is where the mode allows it and
/// the engine takes the width.
pub open spec fn uses_pool(mode: ScalingMode, honoured: bool) -> bool {
    mode != ScalingMode::IndependentInstances && honoured
}

/// Why an engine that was built cannot be measured: `honoured` says whether it
/// takes the width, `native_batch` whether it fans batches out by itself, and
/// `pinned` whether it can be held to one thread.
pub open spec fn refusal(
    mode: ScalingMode,
    threads: usize,
    honoured: bool,
    native_batch: bool,
    pinned: bool,
) -> Option<Seq<char>> {
    if mode == ScalingMode::NativeThreads && !honoured {
        Some("engine cannot run with "@ + decimal(threads as nat) + " native threads"@)
    } else if !uses_pool(mode, honoured) && native_batch && !pinned {
        Some("engine has a native batch pool that cannot be pinned to one thread"@)
    } else {
        None
    }
}

/// `refusal`, computed.
pub fn refuse_workers(
    mode: ScalingMode,
    threads: usize,
    honoured: bool,
    native_batch: bool,
    pinned: bool,
) -> (r: Option<String>)
    ensures
        text_of(r) == refusal(mode, threads, honoured, native_batch, pinned),
{
    if mode == ScalingMode::NativeThreads && !honoured {
        let mut s = "engine cannot run with ".to_owned();
        let n = count_text(threads);
        s.append(n.as_str());
        s.append(" native threads");
        Some(s)
    } else if !(mode != ScalingMode::IndependentInstances && honoured) && native_batch && !pinned {
        Some("engine has a native batch pool that cannot be pinned to one thread".to_owned())
    } else {
        None
    }
}

/// Asks an engine for the width of its own pool, where the mode allows one. The
/// answer says whether the pool is used.
pub fn ask_pool<E: Engine + ?Sized>(engine: &mut E, mode: ScalingMode, threads: usize) -> (r: bool)
    ensures
        final(engine).runs() == old(engine).runs(),
        mode == ScalingMode::IndependentInstances ==> !r && &*final(engine) == &*old(engine),
        mode != ScalingMode::IndependentInstances ==> exists|w: &mut E|
            &*w == &*old(engine) && &*final(w) == &*final(engine) && #[trigger] call_ensures(
                E::set_threads,
                (w, threads),
                r,
            ),
{
    if mode == ScalingMode::IndependentInstances {
        false
    } else {
        engine.set_threads(threads)
    }
}

/// Settles whether the first worker uses its own pool, or why it cannot be
/// measured. One that fans batches out by itself is held to one thread where its
/// pool is not used.
pub fn settle_first<E: Engine + ?Sized>(engine: &mut E, mode: ScalingMode, threads: usize) -> (r:
    Result<bool, String>)
    ensures
        final(engine).runs() == old(engine).runs(),
        exists|a: &mut E, honoured: bool|
            &*a == &*old(engine) && #[trigger] call_ensures(
                ask_pool::<E>,
                (a, mode, threads),
                honoured,
            ) && (honoured ==> r == Ok::<bool, String>(true) && &*final(a) == &*final(engine)) && (
            !honoured && mode == ScalingMode::NativeThreads ==> r is Err && Some(r->Err_0@)
                == refusal(mode, threads, false, false, false) && &*final(a) == &*final(engine)) && (
            !honoured && mode != ScalingMode::NativeThreads ==> exists|native_batch: bool|
                #[trigger] call_ensures(E::has_native_batch, (&*final(a),), native_batch) && (
                !native_batch ==> r == Ok::<bool, String>(false) && &*final(a) == &*final(engine))
                    && (native_batch ==> exists|b: &mut E, pinned: bool|
                    &*b == &*final(a) && &*final(b) == &*final(engine) && #[trigger] call_ensures(
                        E::set_threads,
                        (b, 1usize),
                        pinned,
                    ) && (pinned ==> r == Ok::<bool, String>(false)) && (!pinned ==> r is Err
                        && Some(r->Err_0@) == refusal(mode, threads, false, true, false)))),
{
    let honoured = ask_pool(engine, mode, threads);
    if honoured {
        return Ok(true);
    }
    if mode == ScalingMode::NativeThreads {
        return match refuse_workers(mode, threads, false, false, false) {
            Some(why) => Err(why),
            None => Ok(false),
        };
    }
    if engine.has_native_batch() {
        let pinned = engine.set_threads(1);
        return match refuse_workers(mode, threads, false, true, pinned) {
            Some(why) => Err(why),
            None => Ok(false),
        };
    }
    Ok(false)
}

/// Asks a further worker to hold itself to one thread, whatever it answers.
pub fn hold<E: Engine>(engine: E) -> (r: E)
    ensures
        r.runs() == engine.runs(),
        exists|w: &mut E, held: bool|
            *w == engine && *final(w) == r && #[trigger] call_ensures(
                E::set_threads,
                (w, 1usize),
                held,
            ),
{
    let mut engine = engine;
    let _ = engine.set_threads(1);
    engine
}

/// Whether an engine is a further worker: one that was built and then asked to
/// hold itself to one thread.
pub open spec fn is_further_worker<E: Engine, F: Fn() -> Option<E>>(build: F, engine: E) -> bool {
    exists|made: E|
        call_ensures(build, (), Some(made)) && #[trigger] call_ensures(hold::<E>, (made,), engine)
}

/// What setting up the workers answers once the first was settled: it stands as
/// `first`, and `settled` says whether its pool is used or why it cannot be
/// measured.
pub open spec fn is_set_up<E: Engine, F: Fn() -> Option<E>>(
    build: F,
    threads: usize,
    info: Info,
    first: E,
    settled: Result<bool, String>,
    r: Result<Workers<E>, String>,
) -> bool {
    match settled {
        Err(why) => r is Err && r->Err_0@ == why@,
        Ok(native) => match r {
            Ok(w) => {
                &&& w.native == native
                &&& w.info == info
                &&& w.engines@.len() == if native {
                    1nat
                } else {
                    threads as nat
                }
                &&& w.engines@[0] == first
                &&& forall|k: int|
                    1 <= k < w.engines@.len() ==> is_further_worker(
                        build,
                        #[trigger] w.engines@[k],
                    )
            },
            Err(why) => !native && threads > 1 && call_ensures(build, (), None) && why@
                == "could not load every worker instance"@,
        },
    }
}

/// Builds the workers of a footprint measurement, or says why it cannot: one
/// engine where its own pool is used, one per worker where not.
pub fn prepare_workers<E: Engine, F: Fn() -> Option<E>>(
    build: &F,
    mode: ScalingMode,
    threads: usize,
) -> (r: Result<Workers<E>, String>)
    requires
        threads > 0,
        call_requires(*build, ()),
    ensures
        (call_ensures(*build, (), None) && r is Err && r->Err_0@ == "could not load engine"@)
            || exists|s: &mut E, info: Info, settled: Result<bool, String>|
            call_ensures(*build, (), Some(*s)) && call_ensures(E::info, (&*s,), info)
                && #[trigger] call_ensures(settle_first::<E>, (s, mode, threads), settled)
                && #[trigger] is_set_up(*build, threads, info, *final(s), settled, r),
{
    let mut first = match build() {
        Some(engine) => engine,
        None => {
            return Err("could not load engine".to_owned());
        },
    };
    let ghost made = first;
    let info = first.info();
    assert(call_ensures(E::info, (&made,), info));
    let settled = settle_first(&mut first, mode, threads);
    let ghost answer = settled;
    let native = match settled {
        Ok(native) => native,
        Err(why) => {
            let r = Err(why);
            assert(is_set_up(*build, threads, info, first, answer, r));
            return r;
        },
    };
    let ghost stands = first;
    let mut engines: Vec<E> = Vec::new();
    engines.push(first);
    if !native {
        while engines.len() < threads
            invariant
                1 <= engines@.len() <= threads,
                call_requires(*build, ()),
                engines@[0] == stands,
                forall|k: int|
                    1 <= k < engines@.len() ==> is_further_worker(*build, #[trigger] engines@[k]),
                answer == Ok::<bool, String>(false),
                call_ensures(*build, (), Some(made)),
                call_ensures(E::info, (&made,), info),
                exists|s: &mut E|
                    *s == made && *final(s) == stands && #[trigger] call_ensures(
                        settle_first::<E>,
                        (s, mode, threads),
                        answer,
                    ),
            decreases threads - engines@.len(),
        {
            match build() {
                Some(engine) => {
                    let ghost before = engine;
                    let ghost was = engines@;
                    let engine = hold(engine);
                    assert(is_further_worker(*build, engine));
                    engines.push(engine);
                    assert forall|k: int| 1 <= k < engines@.len() implies is_further_worker(
                        *build,
                        #[trigger] engines@[k],
                    ) by {
                        if k < was.len() {
                            assert(engines@[k] == was[k]);
                        }
                    }
                },
                None => {
                    let r = Err("could not load every worker instance".to_owned());
                    assert(is_set_up(*build, threads, info, stands, answer, r));
                    return r;
                },
            }
        }
    }
    let r = Ok(Workers { engines, info, native });
    assert(is_set_up(*build, threads, info, stands, answer, r));
    r
}

// ---------------------------------------------------------------------------
// Shares
// ---------------------------------------------------------------------------

/// How many of `n` documents fall to one of `workers` workers.
pub open spec fn share_len(n: nat, worker: nat, workers: nat) -> nat {
    if n <= worker {
        0
    } else {
        ((n - worker + workers - 1) / workers as int) as nat
    }
}

/// The documents of one worker: every `workers`th, from its own number on.
pub open spec fn share_of(docs: Seq<Seq<char>>, worker: nat, workers: nat) -> Seq<Seq<char>> {
    Seq::new(share_len(docs.len(), worker, workers), |j: int| docs[worker + j * workers])
}

/// A share ends where the next step would leave the documents.
proof fn lemma_share_len(n: int, worker: int, workers: int, j: int)
    requires
        0 <= worker,
        workers > 0,
        0 <= j,
        worker + j * workers >= n,
        j > 0 ==> worker + (j - 1) * workers < n,
    ensures
        share_len(n as nat, worker as nat, workers as nat) == j || n < 0,
{
    if n > worker {
        let x = n - worker + workers - 1;
        assert((j - 1) * workers == j * workers - workers) by (nonlinear_arith);
        if j == 0 {
            assert(0 * workers == 0) by (nonlinear_arith);
        } else {
            vstd::arithmetic::div_mod::lemma_fundamental_div_mod_converse(
                x,
                workers,
                j,
                x - j * workers,
            );
            assert(x == j * workers + (x - j * workers));
        }
    } else if n >= 0 {
        if j > 0 {
            assert((j - 1) * workers >= 0) by (nonlinear_arith)
                requires
                    j > 0,
                    workers > 0,
            ;
        }
    }
}

/// Every position below the length of a share lies in the documents.
proof fn lemma_share_within(n: nat, worker: nat, workers: nat, j: nat)
    requires
        workers > 0,
        j < share_len(n, worker, workers),
    ensures
        worker + j * workers < n,
{
    let x = n - worker + workers - 1;
    let q = x / workers as int;
    vstd::arithmetic::div_mod::lemma_fundamental_div_mod(x, workers as int);
    assert(j * workers + workers <= q * workers) by (nonlinear_arith)
        requires
            j + 1 <= q,
            workers > 0,
    ;
    assert(q * workers == workers * q) by (nonlinear_arith);
}

/// No document is left out of the shares: document `k` falls to worker
/// `k % workers`, at place `k / workers`.
pub proof fn law_shares_cover(docs: Seq<Seq<char>>, workers: nat, k: nat)
    requires
        workers > 0,
        k < docs.len(),
    ensures
        k / workers < share_of(docs, k % workers, workers).len(),
        share_of(docs, k % workers, workers)[(k / workers) as int] == docs[k as int],
{
    let w = k % workers;
    let j = k / workers;
    vstd::arithmetic::div_mod::lemma_fundamental_div_mod(k as int, workers as int);
    vstd::arithmetic::div_mod::lemma_mod_bound(k as int, workers as int);
    assert(workers * j == j * workers) by (nonlinear_arith);
    let n = docs.len();
    let x = n - w + workers - 1;
    vstd::arithmetic::div_mod::lemma_fundamental_div_mod(x, workers as int);
    vstd::arithmetic::div_mod::lemma_mod_bound(x, workers as int);
    let q = x / workers as int;
    assert(j < q) by (nonlinear_arith)
        requires
            x == workers * q + x % workers as int,
            0 <= x % (workers as int) < workers,
            x >= j * workers + workers,
            workers > 0,
    ;
}

/// No document falls to two workers, nor to one twice: what stands at place `j`
/// of worker `w` is the one document whose number gives back `w` and `j`.
pub proof fn law_shares_are_apart(docs: Seq<Seq<char>>, workers: nat, w: nat, j: nat)
    requires
        w < workers,
        j < share_of(docs, w, workers).len(),
    ensures
        w + j * workers < docs.len(),
        share_of(docs, w, workers)[j as int] == docs[(w + j * workers) as int],
        (w + j * workers) % workers == w,
        (w + j * workers) / workers == j,
{
    lemma_share_within(docs.len(), w, workers, j);
    vstd::arithmetic::div_mod::lemma_fundamental_div_mod_converse(
        (w + j * workers) as int,
        workers as int,
        j as int,
        w as int,
    );
}

/// Encodes a worker's share, one call per document and each into an empty
/// buffer, and hands the engine back.
pub fn encode_share<E: Engine>(engine: E, chunks: &[String], worker: usize, workers: usize) -> (r: E)
    requires
        workers > 0,
    ensures
        appended(
            engine.runs(),
            r.runs(),
            share_of(contents(chunks@), worker as nat, workers as nat),
        ),
        fresh(r.runs(), engine.runs().len()),
        r.decodes() == engine.decodes(),
        exists|list: Seq<&str>|
            batch_texts(list) == share_of(contents(chunks@), worker as nat, workers as nat)
                && #[trigger] one_by_one(engine, list, r),
{
    let ghost before = engine;
    let ghost docs = contents(chunks@);
    let ghost part = |j: int| docs[worker + j * workers];
    let ghost mut list: Seq<&str> = Seq::empty();
    let n: usize = chunks.len();
    let mut engine = engine;
    let mut at: usize = worker;
    assert(0 * workers == 0) by (nonlinear_arith);
    while at < n
        invariant
            workers > 0,
            n == chunks@.len(),
            docs == contents(chunks@),
            part == (|j: int| docs[worker + j * workers]),
            at == worker + list.len() * workers || (at == n && worker + list.len() * workers > n),
            list.len() > 0 ==> worker + (list.len() - 1) * workers < n,
            batch_texts(list) =~= Seq::new(list.len(), part),
            one_by_one(before, list, engine),
        decreases n - at,
    {
        let ghost mid = engine;
        let ghost was = list;
        let text: &str = chunks[at].as_str();
        engine = encode_one(engine, text);
        proof {
            list = list.push(text);
            let j = was.len();
            assert(list.drop_last() =~= was);
            assert(call_ensures(encode_one::<E>, (mid, list.last()), engine));
            assert(batch_texts(list) =~= batch_texts(was).push(docs[at as int]));
            assert((j + 1) * workers == j * workers + workers) by (nonlinear_arith);
            assert(worker + ((j + 1) - 1) * workers == at);
        }
        if workers >= n - at {
            at = n;
        } else {
            at = at + workers;
        }
    }
    proof {
        lemma_share_len(n as int, worker as int, workers as int, list.len() as int);
        assert(share_of(docs, worker as nat, workers as nat) =~= batch_texts(list));
        law_one_by_one(before, list, engine);
    }
    engine
}

// ---------------------------------------------------------------------------
// The child process
// ---------------------------------------------------------------------------

/// The arguments a footprint process is started with.
pub open spec fn child_line(
    name: Seq<char>,
    model: Seq<char>,
    corpus: Seq<char>,
    cache_capacity: Option<usize>,
    threads: usize,
    mode: Seq<char>,
) -> Seq<Seq<char>> {
    let line = seq![
        "--memory"@,
        name,
        "--memory-model"@,
        model,
        "--memory-corpus"@,
        corpus,
        "--memory-threads"@,
        decimal(threads as nat),
        "--scaling-mode"@,
        mode,
    ];
    match cache_capacity {
        Some(n) => line + seq!["--cache-capacity"@, decimal(n as nat)],
        None => line,
    }
}

/// `child_line`, computed.
pub fn child_args(
    name: &str,
    model: &str,
    corpus: &str,
    cache_capacity: Option<usize>,
    threads: usize,
    mode: &str,
) -> (args: Vec<String>)
    ensures
        contents(args@) == child_line(name@, model@, corpus@, cache_capacity, threads, mode@),
{
    let mut args: Vec<String> = Vec::new();
    args.push("--memory".to_owned());
    args.push(name.to_owned());
    args.push("--memory-model".to_owned());
    args.push(model.to_owned());
    args.push("--memory-corpus".to_owned());
    args.push(corpus.to_owned());
    args.push("--memory-threads".to_owned());
    args.push(count_text(threads));
    args.push("--scaling-mode".to_owned());
    args.push(mode.to_owned());
    if let Some(n) = cache_capacity {
        args.push("--cache-capacity".to_owned());
        args.push(count_text(n));
    }
    assert(contents(args@) =~= child_line(
        name@,
        model@,
        corpus@,
        cache_capacity,
        threads,
        mode@,
    ));
    args
}

/// The last line that begins with a brace, whitespace aside.
pub open spec fn last_object(list: Seq<Seq<char>>) -> Option<Seq<char>>
    decreases list.len(),
{
    if list.len() == 0 {
        None
    } else if stands_at(trim_start(list.last()), "{"@, 0) {
        Some(list.last())
    } else {
        last_object(list.drop_last())
    }
}

/// `s` without its leading whitespace.
fn skip_white(s: &str) -> (r: String)
    ensures
        r@ == trim_start(s@),
{
    let v = chars_of(s);
    let mut a: usize = 0;
    assert(v@.skip(0) =~= v@);
    while a < v.len() && crate::scan::is_white(v[a])
        invariant
            a <= v@.len(),
            trim_start(v@) == trim_start(v@.skip(a as int)),
        decreases v@.len() - a,
    {
        assert(v@.skip(a as int).drop_first() =~= v@.skip(a + 1));
        a = a + 1;
    }
    assert(v@.skip(a as int) =~= v@.subrange(a as int, v@.len() as int));
    string_of(&v, a, v.len())
}

/// The line of what a process printed that holds its report: the last one that
/// looks like an object, so that chatter before it does no harm.
pub fn report_line(printed: &str) -> (r: Option<String>)
    ensures
        text_of(r) == last_object(lines(printed@)),
{
    let list = split_lines(printed);
    let ghost all = contents(list@);
    let mut i: usize = list.len();
    assert(all.take(all.len() as int) =~= all);
    while i > 0
        invariant
            i <= list@.len(),
            all == contents(list@),
            all == lines(printed@),
            last_object(all) == last_object(all.take(i as int)),
        decreases i,
    {
        assert(all.take(i as int).drop_last() =~= all.take(i - 1));
        assert(all.take(i as int).last() == list@[i - 1]@);
        let front = skip_white(list[i - 1].as_str());
        if begins(front.as_str(), "{") {
            return Some(list[i - 1].clone());
        }
        i = i - 1;
    }
    None
}

/// What one footprint process reported.
#[derive(Clone, Debug)]
pub struct FootprintSample {
    pub heap_load_mb: Option<Real>,
    pub heap_encode_mb: Option<Real>,
    pub memory_threads: Option<usize>,
    pub memory_parallelism: Option<String>,
    pub engine_version: Option<String>,
    pub engine_lang: Option<String>,
    pub engine_class: Option<String>,
    pub also_computes: Option<String>,
    pub internally_parallel: Option<bool>,
    pub unsupported: Option<String>,
}

/// A member that is a string.
pub open spec fn string_member(list: Seq<(Seq<char>, Seq<char>)>, key: Seq<char>) -> Option<
    Seq<char>,
> {
    match member(list, key) {
        Some(json) => string_in(json),
        None => None,
    }
}

/// A number by its bits.
pub open spec fn real_of(bits: Option<u64>) -> Option<Real> {
    match bits {
        Some(bits) => Some(Real { bits }),
        None => None,
    }
}

/// A member that is a whole number.
pub open spec fn whole_member(list: Seq<(Seq<char>, Seq<char>)>, key: Seq<char>) -> Option<u64> {
    match member(list, key) {
        Some(json) => whole_in(json),
        None => None,
    }
}

/// A member that is true or false.
pub open spec fn flag_member(list: Seq<(Seq<char>, Seq<char>)>, key: Seq<char>) -> Option<bool> {
    match member(list, key) {
        Some(json) => if json == "true"@ {
            Some(true)
        } else if json == "false"@ {
            Some(false)
        } else {
            None
        },
        None => None,
    }
}

fn read_string(list: &Vec<(String, String)>, key: &str) -> (r: Option<String>)
    ensures
        text_of(r) == string_member(pairs(list@), key@),
{
    match find_member(list, key) {
        Some(json) => string_value(json),
        None => None,
    }
}

fn read_real(bits: Option<u64>) -> (r: Option<Real>)
    ensures
        r == real_of(bits),
{
    match bits {
        Some(bits) => Some(Real { bits }),
        None => None,
    }
}

fn read_flag(list: &Vec<(String, String)>, key: &str) -> (r: Option<bool>)
    ensures
        r == flag_member(pairs(list@), key@),
{
    match find_member(list, key) {
        Some(json) => if same(json, "true") {
            Some(true)
        } else if same(json, "false") {
            Some(false)
        } else {
            None
        },
        None => None,
    }
}

/// What the members of a report say, and the two sizes it holds by their bits.
pub open spec fn is_sample(
    list: Seq<(Seq<char>, Seq<char>)>,
    load: Option<u64>,
    encode: Option<u64>,
    s: FootprintSample,
) -> bool {
    &&& s.heap_load_mb == real_of(load)
    &&& s.heap_encode_mb == real_of(encode)
    &&& s.memory_threads == (match whole_member(list, "memory_threads"@) {
        Some(n) => Some(n as usize),
        None => None,
    })
    &&& text_of(s.memory_parallelism) == string_member(list, "memory_parallelism"@)
    &&& text_of(s.engine_version) == string_member(list, "engine_version"@)
    &&& text_of(s.engine_lang) == string_member(list, "engine_lang"@)
    &&& text_of(s.engine_class) == string_member(list, "engine_class"@)
    &&& text_of(s.also_computes) == string_member(list, "also_computes"@)
    &&& s.internally_parallel == flag_member(list, "internally_parallel"@)
    &&& text_of(s.unsupported) == string_member(list, "unsupported"@)
}

/// The sample that the members of a report and its two sizes make.
pub fn sample_of_members(
    list: &Vec<(String, String)>,
    load: Option<u64>,
    encode: Option<u64>,
) -> (s: FootprintSample)
    ensures
        is_sample(pairs(list@), load, encode, s),
{
    let threads = match find_member(list, "memory_threads") {
        Some(json) => match whole_value(json) {
            Some(n) => Some(n as usize),
            None => None,
        },
        None => None,
    };
    FootprintSample {
        heap_load_mb: read_real(load),
        heap_encode_mb: read_real(encode),
        memory_threads: threads,
        memory_parallelism: read_string(list, "memory_parallelism"),
        engine_version: read_string(list, "engine_version"),
        engine_lang: read_string(list, "engine_lang"),
        engine_class: read_string(list, "engine_class"),
        also_computes: read_string(list, "also_computes"),
        internally_parallel: read_flag(list, "internally_parallel"),
        unsupported: read_string(list, "unsupported"),
    }
}

/// The sample that a report line holds; `None` where it is no JSON.
pub fn sample_of_line(line: &str) -> (r: Option<FootprintSample>)
    ensures
        match members_of(line@, ""@) {
            Ok(found) => r is Some && is_sample(
                match found {
                    Some(list) => list,
                    None => Seq::empty(),
                },
                number_at(line@, "/heap_load_mb"@),
                number_at(line@, "/heap_encode_mb"@),
                r->0,
            ),
            Err(_) => r is None,
        },
{
    let list = match members(line, "") {
        Ok(Some(list)) => list,
        Ok(None) => {
            let none: Vec<(String, String)> = Vec::new();
            assert(pairs(none@) =~= Seq::empty());
            none
        },
        Err(_) => {
            return None;
        },
    };
    let load = number_value(line, "/heap_load_mb");
    let encode = number_value(line, "/heap_encode_mb");
    Some(sample_of_members(&list, load, encode))
}

// ---------------------------------------------------------------------------
// Repetitions
// ---------------------------------------------------------------------------

/// The footprint of several repetitions: medians of the sizes, and the rest as
/// the first repetition said it.
pub struct RepeatedFootprint {
    pub heap_load_mb: Option<Middle<Real>>,
    pub heap_encode_mb: Option<Middle<Real>>,
    pub first: FootprintSample,
}

/// The loaded (or working) sizes of the samples that have one.
pub open spec fn sizes(samples: Seq<FootprintSample>, loaded: bool) -> Seq<Real>
    decreases samples.len(),
{
    if samples.len() == 0 {
        Seq::empty()
    } else {
        let so_far = sizes(samples.drop_last(), loaded);
        let size = if loaded {
            samples.last().heap_load_mb
        } else {
            samples.last().heap_encode_mb
        };
        match size {
            Some(v) => so_far.push(v),
            None => so_far,
        }
    }
}

/// The median of a list, if it is not empty.
pub open spec fn median_if_any(values: Seq<Real>) -> Option<Middle<Real>> {
    if values.len() == 0 {
        None
    } else {
        Some(the_median(values))
    }
}

fn median_size(samples: &Vec<FootprintSample>, loaded: bool) -> (r: Option<Middle<Real>>)
    ensures
        r == median_if_any(sizes(samples@, loaded)),
{
    let mut values: Vec<Real> = Vec::new();
    let mut i: usize = 0;
    assert(samples@.take(0) =~= Seq::empty());
    while i < samples.len()
        invariant
            i <= samples@.len(),
            values@ =~= sizes(samples@.take(i as int), loaded),
        decreases samples@.len() - i,
    {
        assert(samples@.take(i + 1).drop_last() =~= samples@.take(i as int));
        let size = if loaded {
            samples[i].heap_load_mb
        } else {
            samples[i].heap_encode_mb
        };
        if let Some(v) = size {
            values.push(v);
        }
        i = i + 1;
    }
    assert(samples@.take(samples@.len() as int) =~= samples@);
    if values.len() == 0 {
        return None;
    }
    let m = median(values.as_slice());
    proof {
        lemma_the_median(values@, m);
    }
    Some(m)
}

fn copy_sample(s: &FootprintSample) -> (r: FootprintSample)
    ensures
        r == *s,
{
    FootprintSample {
        heap_load_mb: s.heap_load_mb,
        heap_encode_mb: s.heap_encode_mb,
        memory_threads: s.memory_threads,
        memory_parallelism: copy_text(&s.memory_parallelism),
        engine_version: copy_text(&s.engine_version),
        engine_lang: copy_text(&s.engine_lang),
        engine_class: copy_text(&s.engine_class),
        also_computes: copy_text(&s.also_computes),
        internally_parallel: s.internally_parallel,
        unsupported: copy_text(&s.unsupported),
    }
}

fn copy_text(s: &Option<String>) -> (r: Option<String>)
    ensures
        r == *s,
{
    match s {
        Some(t) => Some(t.clone()),
        None => None,
    }
}

/// A sample that says nothing but why there is none.
pub open spec fn refused_sample(why: Option<String>) -> FootprintSample {
    FootprintSample {
        heap_load_mb: None,
        heap_encode_mb: None,
        memory_threads: None,
        memory_parallelism: None,
        engine_version: None,
        engine_lang: None,
        engine_class: None,
        also_computes: None,
        internally_parallel: None,
        unsupported: why,
    }
}

/// Puts the repetitions of a footprint together. Where the first one was
/// refused, its reason is all there is.
pub fn combine_footprints(samples: &Vec<FootprintSample>) -> (r: Option<RepeatedFootprint>)
    ensures
        r is None <==> samples@.len() == 0,
        r matches Some(f) ==> if samples@[0].unsupported is Some {
            f.first == refused_sample(samples@[0].unsupported) && f.heap_load_mb is None
                && f.heap_encode_mb is None
        } else {
            f.first == samples@[0] && f.heap_load_mb == median_if_any(sizes(samples@, true)) && f.heap_encode_mb
                == median_if_any(sizes(samples@, false))
        },
{
    if samples.len() == 0 {
        return None;
    }
    if samples[0].unsupported.is_some() {
        let first = FootprintSample {
            heap_load_mb: None,
            heap_encode_mb: None,
            memory_threads: None,
            memory_parallelism: None,
            engine_version: None,
            engine_lang: None,
            engine_class: None,
            also_computes: None,
            internally_parallel: None,
            unsupported: copy_text(&samples[0].unsupported),
        };
        return Some(RepeatedFootprint { heap_load_mb: None, heap_encode_mb: None, first });
    }
    let first = copy_sample(&samples[0]);
    let heap_load_mb = median_size(samples, true);
    let heap_encode_mb = median_size(samples, false);
    Some(RepeatedFootprint { heap_load_mb, heap_encode_mb, first })
}

// ---------------------------------------------------------------------------
// What a footprint says
// ---------------------------------------------------------------------------

/// Whether engines can always be built and all answer alike: to a width by `takes`,
/// and about their batches with `native_batch`.
pub open spec fn built_alike<E: Engine, F: Fn() -> Option<E>>(
    build: F,
    native_batch: bool,
    takes: spec_fn(usize) -> bool,
) -> bool {
    &&& !call_ensures(build, (), None)
    &&& forall|w: &mut E, n: usize, answer: bool| #[trigger]
        call_ensures(E::set_threads, (w, n), answer) ==> answer == takes(n)
    &&& forall|e: &E, answer: bool| #[trigger]
        call_ensures(E::has_native_batch, (e,), answer) ==> answer == native_batch
}

/// An engine that takes the width is one worker, with its own threads, unless
/// independent instances were asked for. One that does not is as many workers as
/// were asked for, unless its own threads were asked for, or it fans batches out
/// and cannot be held to one thread; and then the refusal says which.
pub proof fn law_workers_are_as_many_as_asked<E: Engine, F: Fn() -> Option<E>>(
    build: F,
    mode: ScalingMode,
    threads: usize,
    native_batch: bool,
    takes: spec_fn(usize) -> bool,
    r: Result<Workers<E>, String>,
)
    requires
        threads > 0,
        call_ensures(prepare_workers::<E, F>, (&build, mode, threads), r),
        built_alike::<E, F>(build, native_batch, takes),
    ensures
        ({
            let own = mode != ScalingMode::IndependentInstances && takes(threads);
            &&& own ==> r is Ok && r->Ok_0.native && r->Ok_0.engines@.len() == 1
            &&& !own && mode == ScalingMode::NativeThreads ==> r is Err && r->Err_0@
                == "engine cannot run with "@ + decimal(threads as nat) + " native threads"@
            &&& !own && mode != ScalingMode::NativeThreads && native_batch && !takes(1)
                ==> r is Err && r->Err_0@
                == "engine has a native batch pool that cannot be pinned to one thread"@
            &&& !own && mode != ScalingMode::NativeThreads && (!native_batch || takes(1))
                ==> r is Ok && !r->Ok_0.native && r->Ok_0.engines@.len() == threads
        }),
{
}

/// A worker encodes every `workers`th document from its own number on, in order and
/// each into an empty buffer, and nothing else.
pub proof fn law_share_is_every_nth<E: Engine>(
    engine: E,
    chunks: &[String],
    worker: usize,
    workers: usize,
    r: E,
    k: int,
    j: int,
)
    requires
        workers > 0,
        call_ensures(encode_share::<E>, (engine, chunks, worker, workers), r),
        k == r.runs().len() - engine.runs().len(),
    ensures
        k >= 0,
        r.runs().take(engine.runs().len() as int) == engine.runs(),
        worker + k * workers >= chunks@.len(),
        0 <= j < k ==> 0 <= worker + j * workers < chunks@.len(),
        0 <= j < k ==> r.runs()[engine.runs().len() + j].text == chunks@[worker + j * workers]@,
        0 <= j < k ==> r.runs()[engine.runs().len() + j].given.len() == 0,
{
    let docs = contents(chunks@);
    let share = share_of(docs, worker as nat, workers as nat);
    let start = engine.runs().len() as int;
    assert(appended(engine.runs(), r.runs(), share));
    assert(r.runs().take(start) =~= engine.runs()) by {
        assert forall|i: int| 0 <= i < start implies r.runs()[i] == engine.runs()[i] by {
            assert(r.runs()[i] == engine.runs()[i]);
        }
    }
    if 0 <= j < k {
        lemma_share_within(docs.len(), worker as nat, workers as nat, j as nat);
        assert(0 <= j * workers) by (nonlinear_arith)
            requires
                0 <= j,
        ;
        assert(share[j] == docs[worker + j * workers]);
        assert(r.runs()[start + j].text == share[j]);
    }
    lemma_share_ends(docs.len(), worker as nat, workers as nat);
}

proof fn lemma_share_ends(n: nat, worker: nat, workers: nat)
    requires
        workers > 0,
    ensures
        worker + share_len(n, worker, workers) * workers >= n,
{
    if n > worker {
        let x = n - worker + workers - 1;
        let q = x / workers as int;
        vstd::arithmetic::div_mod::lemma_fundamental_div_mod(x, workers as int);
        vstd::arithmetic::div_mod::lemma_mod_bound(x, workers as int);
        vstd::arithmetic::div_mod::lemma_div_pos_is_pos(x, workers as int);
        assert(workers * q == q * workers) by (nonlinear_arith);
    } else {
        assert(0 * workers == 0) by (nonlinear_arith);
    }
}

/// A footprint process is told, each behind its option: the engine, the model, the
/// corpus, how many workers, who makes the threads, and the capacity of the cache
/// where one was asked for.
pub proof fn law_child_is_told(
    name: &str,
    model: &str,
    corpus: &str,
    cache_capacity: Option<usize>,
    threads: usize,
    mode: &str,
    args: Vec<String>,
)
    requires
        call_ensures(child_args, (name, model, corpus, cache_capacity, threads, mode), args),
    ensures
        ({
            let said = |option: Seq<char>, value: Seq<char>|
                exists|k: int|
                    #![trigger args@[k]]
                    0 <= k < args@.len() - 1 && k % 2 == 0 && args@[k]@ == option && args@[k + 1]@
                        == value;
            &&& said("--memory"@, name@)
            &&& said("--memory-model"@, model@)
            &&& said("--memory-corpus"@, corpus@)
            &&& said("--memory-threads"@, decimal(threads as nat))
            &&& said("--scaling-mode"@, mode@)
            &&& cache_capacity matches Some(n) ==> said("--cache-capacity"@, decimal(n as nat))
        }),
        args@.len() == if cache_capacity is Some {
            12int
        } else {
            10
        },
{
    let line = contents(args@);
    assert(line.len() == args@.len());
    assert(line[0] == args@[0]@ && line[1] == args@[1]@);
    assert(line[2] == args@[2]@ && line[3] == args@[3]@);
    assert(line[4] == args@[4]@ && line[5] == args@[5]@);
    assert(line[6] == args@[6]@ && line[7] == args@[7]@);
    assert(line[8] == args@[8]@ && line[9] == args@[9]@);
    if cache_capacity is Some {
        assert(line[10] == args@[10]@ && line[11] == args@[11]@);
    }
}

/// Whether a line looks like an object: its first character that is not whitespace
/// is an opening brace.
pub open spec fn looks_like_object(line: Seq<char>) -> bool {
    exists|k: int|
        0 <= k < line.len() && #[trigger] line[k] == '{' && forall|i: int|
            0 <= i < k ==> crate::scan::white(#[trigger] line[i])
}

proof fn lemma_looks_like_object(line: Seq<char>)
    ensures
        stands_at(trim_start(line), "{"@, 0) <==> looks_like_object(line),
    decreases line.len(),
{
    reveal_strlit("{");
    if line.len() > 0 && crate::scan::white(line[0]) {
        let rest = line.drop_first();
        lemma_looks_like_object(rest);
        if looks_like_object(rest) {
            let k = choose|k: int|
                0 <= k < rest.len() && #[trigger] rest[k] == '{' && forall|i: int|
                    0 <= i < k ==> crate::scan::white(#[trigger] rest[i]);
            assert(line[k + 1] == '{');
            assert forall|i: int| 0 <= i < k + 1 implies crate::scan::white(
                #[trigger] line[i],
            ) by {
                if i > 0 {
                    assert(rest[i - 1] == line[i]);
                }
            }
        }
        if looks_like_object(line) {
            let k = choose|k: int|
                0 <= k < line.len() && #[trigger] line[k] == '{' && forall|i: int|
                    0 <= i < k ==> crate::scan::white(#[trigger] line[i]);
            assert(rest[k - 1] == '{');
            assert forall|i: int| 0 <= i < k - 1 implies crate::scan::white(
                #[trigger] rest[i],
            ) by {
                assert(line[i + 1] == rest[i]);
            }
        }
    } else if line.len() > 0 {
        assert(trim_start(line) == line);
        if stands_at(line, "{"@, 0) {
            assert(line.subrange(0, 1)[0] == line[0]);
            assert(line[0] == '{');
        }
        if looks_like_object(line) {
            let k = choose|k: int|
                0 <= k < line.len() && #[trigger] line[k] == '{' && forall|i: int|
                    0 <= i < k ==> crate::scan::white(#[trigger] line[i]);
            if k > 0 {
                assert(crate::scan::white(line[0]));
            }
            assert(line.subrange(0, 1) =~= "{"@);
        }
    }
}

/// The report of a process is the last line it printed that looks like an object,
/// whatever else it printed before and after; without such a line it reported
/// nothing.
pub proof fn law_report_is_the_last_object(printed: &str, r: Option<String>)
    requires
        call_ensures(report_line, (printed,), r),
    ensures
        r is None <==> forall|k: int|
            0 <= k < lines(printed@).len() ==> !looks_like_object(#[trigger] lines(printed@)[k]),
        r matches Some(line) ==> exists|k: int|
            0 <= k < lines(printed@).len() && #[trigger] lines(printed@)[k] == line@
                && looks_like_object(line@) && forall|i: int|
                k < i < lines(printed@).len() ==> !looks_like_object(#[trigger] lines(printed@)[i]),
{
    lemma_last_object(lines(printed@));
}

proof fn lemma_last_object(list: Seq<Seq<char>>)
    ensures
        match last_object(list) {
            Some(line) => exists|k: int|
                0 <= k < list.len() && #[trigger] list[k] == line && looks_like_object(line)
                    && forall|i: int|
                    k < i < list.len() ==> !looks_like_object(#[trigger] list[i]),
            None => forall|k: int|
                0 <= k < list.len() ==> !looks_like_object(#[trigger] list[k]),
        },
    decreases list.len(),
{
    if list.len() > 0 {
        let less = list.drop_last();
        let last = list.len() - 1;
        lemma_looks_like_object(list.last());
        lemma_last_object(less);
        if !looks_like_object(list.last()) {
            match last_object(list) {
                Some(line) => {
                    let k = choose|k: int|
                        0 <= k < less.len() && #[trigger] less[k] == line && looks_like_object(line)
                            && forall|i: int|
                            k < i < less.len() ==> !looks_like_object(#[trigger] less[i]);
                    assert(list[k] == line);
                    assert forall|i: int| k < i < list.len() implies !looks_like_object(
                        #[trigger] list[i],
                    ) by {
                        if i < last {
                            assert(less[i] == list[i]);
                        }
                    }
                },
                None => {
                    assert forall|i: int| 0 <= i < list.len() implies !looks_like_object(
                        #[trigger] list[i],
                    ) by {
                        if i < last {
                            assert(less[i] == list[i]);
                        }
                    }
                },
            }
        } else {
            assert(list[last] == list.last());
        }
    }
}

/// Whether a text is the string that the member of a name holds, and missing where
/// there is no such member or it holds no string.
pub open spec fn reads_text(
    value: Option<String>,
    list: Seq<(Seq<char>, Seq<char>)>,
    key: Seq<char>,
) -> bool {
    &&& member(list, key) is None ==> value is None
    &&& member(list, key) is Some ==> text_of(value) == string_in(member(list, key)->0)
}

/// Every number and text of a sample comes from the member of its own name.
pub proof fn law_sample_reads_its_members(
    list: &Vec<(String, String)>,
    load: Option<u64>,
    encode: Option<u64>,
    s: FootprintSample,
)
    requires
        call_ensures(sample_of_members, (list, load, encode), s),
    ensures
        load is None ==> s.heap_load_mb is None,
        load is Some ==> s.heap_load_mb == Some(Real { bits: load->0 }),
        encode is None ==> s.heap_encode_mb is None,
        encode is Some ==> s.heap_encode_mb == Some(Real { bits: encode->0 }),
        reads_text(s.memory_parallelism, pairs(list@), "memory_parallelism"@),
        reads_text(s.engine_version, pairs(list@), "engine_version"@),
        reads_text(s.engine_lang, pairs(list@), "engine_lang"@),
        reads_text(s.engine_class, pairs(list@), "engine_class"@),
        reads_text(s.also_computes, pairs(list@), "also_computes"@),
        reads_text(s.unsupported, pairs(list@), "unsupported"@),
        ({
            let json = member(pairs(list@), "memory_threads"@);
            if json is Some && whole_in(json->0) is Some {
                s.memory_threads == Some(whole_in(json->0)->0 as usize)
            } else {
                s.memory_threads is None
            }
        }),
        ({
            let json = member(pairs(list@), "internally_parallel"@);
            &&& json == Some("true"@) ==> s.internally_parallel == Some(true)
            &&& json == Some("false"@) ==> s.internally_parallel == Some(false)
            &&& json != Some("true"@) && json != Some("false"@) ==> s.internally_parallel is None
        }),
{
    reveal_strlit("true");
    reveal_strlit("false");
    assert("true"@.len() != "false"@.len());
}

/// Whether a size is the median of some numbers, or missing where there are none.
pub open spec fn is_median_if_any(m: Option<Middle<Real>>, values: Seq<Real>) -> bool {
    if values.len() == 0 {
        m is None
    } else {
        m is Some && is_median(values, m->0)
    }
}

proof fn lemma_sizes(samples: Seq<FootprintSample>, loaded: bool)
    ensures
        loaded ==> sizes(samples, loaded) == samples.filter_map(
            |s: FootprintSample| s.heap_load_mb,
        ),
        !loaded ==> sizes(samples, loaded) == samples.filter_map(
            |s: FootprintSample| s.heap_encode_mb,
        ),
        sizes(samples, loaded).len() <= samples.len(),
    decreases samples.len(),
{
    if samples.len() > 0 {
        let less = samples.drop_last();
        lemma_sizes(less, loaded);
        let so_far = sizes(less, loaded);
        let size = if loaded {
            samples.last().heap_load_mb
        } else {
            samples.last().heap_encode_mb
        };
        if let Some(v) = size {
            assert(so_far.push(v) =~= so_far + seq![v]);
        }
    }
}

/// The footprint of several repetitions: there is one where there was a repetition.
/// Its sizes are the medians over the repetitions that have the size, and all else
/// is as the first repetition said it; but where the first was refused, the reason
/// is all there is.
pub proof fn law_footprints_are_medians(
    samples: &Vec<FootprintSample>,
    r: Option<RepeatedFootprint>,
)
    requires
        call_ensures(combine_footprints, (samples,), r),
    ensures
        r is None <==> samples@.len() == 0,
        r matches Some(f) ==> {
            &&& samples@[0].unsupported is None ==> f.first == samples@[0] && is_median_if_any(
                f.heap_load_mb,
                samples@.filter_map(|s: FootprintSample| s.heap_load_mb),
            ) && is_median_if_any(
                f.heap_encode_mb,
                samples@.filter_map(|s: FootprintSample| s.heap_encode_mb),
            )
            &&& samples@[0].unsupported is Some ==> f.first.unsupported == samples@[0].unsupported
                && f.heap_load_mb is None && f.heap_encode_mb is None && f.first.heap_load_mb is None
                && f.first.heap_encode_mb is None && f.first.memory_threads is None
                && f.first.memory_parallelism is None && f.first.engine_version is None
                && f.first.engine_lang is None && f.first.engine_class is None
                && f.first.also_computes is None && f.first.internally_parallel is None
        },
{
    assert(samples@.len() == samples.len());
    lemma_sizes(samples@, true);
    lemma_sizes(samples@, false);
    lemma_some_median(sizes(samples@, true));
    lemma_some_median(sizes(samples@, false));
}

/// Workers are told apart by who makes the threads.
pub proof fn law_parallelism_in_words<E>(w: Workers<E>, r: &'static str)
    requires
        call_ensures(Workers::<E>::parallelism_text, (&w,), r),
    ensures
        w.native ==> r@ == "native-threads"@,
        !w.native ==> r@ == "independent-instances"@,
{
}

/// An engine is refused where its own threads were asked for and it does not take them;
/// and where it is to be one of several instances, fans batches out by itself, and cannot
/// be held to one thread. Otherwise it is not.
pub proof fn law_workers_are_refused_for_a_reason(
    mode: ScalingMode,
    threads: usize,
    honoured: bool,
    native_batch: bool,
    pinned: bool,
    r: Option<String>,
)
    requires
        call_ensures(refuse_workers, (mode, threads, honoured, native_batch, pinned), r),
    ensures
        mode == ScalingMode::NativeThreads && !honoured ==> r is Some && r->0@
            == "engine cannot run with "@ + decimal(threads as nat) + " native threads"@,
        mode == ScalingMode::NativeThreads && honoured ==> r is None,
        mode == ScalingMode::Auto && honoured ==> r is None,
        mode == ScalingMode::IndependentInstances || (mode == ScalingMode::Auto && !honoured) ==> (
        r is Some <==> native_batch && !pinned),
        r is Some && mode != ScalingMode::NativeThreads ==> r->0@
            == "engine has a native batch pool that cannot be pinned to one thread"@,
{
}

/// A report line is a sample exactly where it is JSON: the sample of its members and of
/// the two sizes in it.
pub proof fn law_report_lines_are_samples(
    line: &str,
    r: Option<FootprintSample>,
    list: &Vec<(String, String)>,
    s: FootprintSample,
)
    requires
        call_ensures(sample_of_line, (line,), r),
        members_of(line@, ""@) matches Ok(Some(all)) ==> pairs(list@) == all,
        members_of(line@, ""@) matches Ok(None) ==> list@.len() == 0,
        call_ensures(
            sample_of_members,
            (list, number_at(line@, "/heap_load_mb"@), number_at(line@, "/heap_encode_mb"@)),
            s,
        ),
    ensures
        r is Some <==> members_of(line@, ""@) is Ok,
        r is Some ==> r->0.heap_load_mb == s.heap_load_mb && r->0.heap_encode_mb
            == s.heap_encode_mb && r->0.memory_threads == s.memory_threads && text_of(
            r->0.memory_parallelism,
        ) == text_of(s.memory_parallelism) && text_of(r->0.engine_version) == text_of(
            s.engine_version,
        ) && text_of(r->0.engine_lang) == text_of(s.engine_lang) && text_of(r->0.engine_class)
            == text_of(s.engine_class) && text_of(r->0.also_computes) == text_of(s.also_computes)
            && r->0.internally_parallel == s.internally_parallel && text_of(r->0.unsupported)
            == text_of(s.unsupported),
{
    if list@.len() == 0 {
        assert(pairs(list@) =~= Seq::empty());
    }
}

/// The engine's own pool is asked for exactly where independent instances were not asked for,
/// and used where the engine takes the width.
pub proof fn law_pools_are_asked_for<E: Engine + ?Sized>(
    before: &E,
    after: &E,
    mode: ScalingMode,
    threads: usize,
    r: bool,
    takes: spec_fn(usize) -> bool,
)
    requires
        exists|e: &mut E|
            &*e == before && &*final(e) == after && #[trigger] call_ensures(
                ask_pool::<E>,
                (e, mode, threads),
                r,
            ),
        forall|w: &mut E, n: usize, yes: bool| #[trigger]
            call_ensures(E::set_threads, (w, n), yes) ==> yes == takes(n),
    ensures
        r <==> mode != ScalingMode::IndependentInstances && takes(threads),
        mode == ScalingMode::IndependentInstances ==> after == before,
        after.runs() == before.runs(),
{
}

/// The first worker uses its own pool where that is asked for, or left to it, and it takes
/// the width. Where its own threads are asked for and it does not take them, it is refused.
/// Otherwise it is one of several, unless it fans batches out and cannot be held to one
/// thread.
pub proof fn law_first_worker_is_settled<E: Engine + ?Sized>(
    before: &E,
    after: &E,
    mode: ScalingMode,
    threads: usize,
    r: Result<bool, String>,
    takes: spec_fn(usize) -> bool,
    native_batch: bool,
)
    requires
        exists|e: &mut E|
            &*e == before && &*final(e) == after && #[trigger] call_ensures(
                settle_first::<E>,
                (e, mode, threads),
                r,
            ),
        forall|w: &mut E, n: usize, yes: bool| #[trigger]
            call_ensures(E::set_threads, (w, n), yes) ==> yes == takes(n),
        forall|b: &E, yes: bool| #[trigger]
            call_ensures(E::has_native_batch, (b,), yes) ==> yes == native_batch,
    ensures
        ({
            let pool = mode != ScalingMode::IndependentInstances && takes(threads);
            let native_only = mode == ScalingMode::NativeThreads;
            &&& pool ==> r is Ok && r->Ok_0
            &&& !pool && native_only ==> r is Err && r->Err_0@ == "engine cannot run with "@
                + decimal(threads as nat) + " native threads"@
            &&& !pool && !native_only && native_batch && !takes(1) ==> r is Err && r->Err_0@
                == "engine has a native batch pool that cannot be pinned to one thread"@
            &&& !pool && !native_only && (!native_batch || takes(1)) ==> r is Ok && !r->Ok_0
        }),
        after.runs() == before.runs(),
{
    let e = choose|e: &mut E|
        &*e == before && &*final(e) == after && #[trigger] call_ensures(
            settle_first::<E>,
            (e, mode, threads),
            r,
        );
    let (a, honoured) = choose|a: &mut E, honoured: bool|
        &*a == before && #[trigger] call_ensures(ask_pool::<E>, (a, mode, threads), honoured) && (
        honoured ==> r == Ok::<bool, String>(true) && &*final(a) == after) && (!honoured && mode
            == ScalingMode::NativeThreads ==> r is Err && Some(r->Err_0@) == refusal(
            mode,
            threads,
            false,
            false,
            false,
        ) && &*final(a) == after) && (!honoured && mode != ScalingMode::NativeThreads ==> exists|
            native_batch: bool,
        | #[trigger]
            call_ensures(E::has_native_batch, (&*final(a),), native_batch) && (!native_batch ==> r
                == Ok::<bool, String>(false) && &*final(a) == after) && (native_batch ==> exists|
                b: &mut E,
                pinned: bool,
            |
                &*b == &*final(a) && &*final(b) == after && #[trigger] call_ensures(
                    E::set_threads,
                    (b, 1usize),
                    pinned,
                ) && (pinned ==> r == Ok::<bool, String>(false)) && (!pinned ==> r is Err && Some(
                    r->Err_0@,
                ) == refusal(mode, threads, false, true, false))));
    law_pools_are_asked_for::<E>(&*a, &*final(a), mode, threads, honoured, takes);
}

/// Holding a worker to one thread encodes nothing.
pub proof fn law_holding_encodes_nothing<E: Engine>(engine: E, r: E)
    requires
        call_ensures(hold::<E>, (engine,), r),
    ensures
        r.runs() == engine.runs(),
{
}

}
