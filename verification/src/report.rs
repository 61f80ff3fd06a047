//! The report: one result per engine and cell, how it is filled in, and how it
//! is checked against the reference.

use crate::engine::Info;
use crate::number::{zero, Real};
use crate::registry::REFERENCE;
use crate::text::{hex16, hex16_text, same};
use vstd::prelude::*;
use vstd::string::StringExecFns;

verus! {

/// What a cell was measured on.
#[derive(Clone, Debug)]
pub struct DatasetMetadata {
    pub file_size_bytes: usize,
    pub total_characters: usize,
    pub corpus: String,
    pub model: String,
    pub reps: usize,
    pub warmup: bool,
    pub pipeline_cache_capacity: Option<usize>,
}

/// Where an engine that says so spends its time, in nanoseconds.
#[derive(Clone, Copy, Debug, PartialEq, Eq)]
pub struct Breakdown {
    pub normalization: u64,
    pub pre_tokenization: u64,
    pub core_encoding: u64,
    pub post_processing: u64,
}

/// One point of a scaling curve.
#[derive(Clone, Debug)]
pub struct ScalePoint {
    pub threads: usize,
    pub mbps: Real,
    pub efficiency_pct: Real,
    pub padding: String,
    pub parallelism: String,
}

/// What one engine did in one cell.
#[derive(Clone, Debug)]
pub struct EngineResult {
    pub tokenizer_name: String,
    pub total_tokens_produced: usize,
    pub mean_execution_time_seconds: Real,
    pub breakdown_nanoseconds: Option<Breakdown>,
    pub engine_version: String,
    pub engine_lang: String,
    pub engine_class: String,
    pub also_computes: String,
    pub internally_parallel: bool,
    pub load_ms: Real,
    pub mbps: Real,
    pub ns_per_byte: Real,
    pub ids_hash: String,
    pub verified: Option<bool>,
    pub unsupported: Option<String>,
    pub decode_mbps: Option<Real>,
    pub decode_ns_per_token: Option<Real>,
    pub decode_text_hash: Option<String>,
    pub decode_verified: Option<bool>,
    pub decode_unsupported: Option<String>,
    pub heap_load_mb: Option<Real>,
    pub heap_encode_mb: Option<Real>,
    pub memory_threads: Option<usize>,
    pub memory_parallelism: Option<String>,
    pub crate_size_kb: Option<Real>,
    pub package_ref: Option<String>,
    pub binary_delta_kb: Option<Real>,
    pub scaling: Option<Vec<ScalePoint>>,
    pub padding_unsupported: Option<Vec<String>>,
    pub reused_text: bool,
    pub latency_p50_us: Option<Real>,
    pub latency_p99_us: Option<Real>,
    pub latency_samples: Option<usize>,
    pub latency_document_bytes: Option<usize>,
}

/// The results of one cell.
#[derive(Clone, Debug)]
pub struct Run {
    pub dataset_metadata: DatasetMetadata,
    pub results: Vec<EngineResult>,
}

// ---------------------------------------------------------------------------
// Results
// ---------------------------------------------------------------------------

/// The text of an optional string.
pub open spec fn text_of(s: Option<String>) -> Option<Seq<char>> {
    match s {
        Some(t) => Some(t@),
        None => None,
    }
}

/// A result with nothing measured: what it says of its engine, and why it has
/// nothing to say.
pub open spec fn is_bare(
    r: EngineResult,
    name: Seq<char>,
    version: Seq<char>,
    lang: Seq<char>,
    class: Seq<char>,
    load_ms: Real,
    unsupported: Option<Seq<char>>,
) -> bool {
    &&& r.tokenizer_name@ == name
    &&& r.engine_version@ == version
    &&& r.engine_lang@ == lang
    &&& r.engine_class@ == class
    &&& r.load_ms == load_ms
    &&& text_of(r.unsupported) == unsupported
    &&& r.total_tokens_produced == 0
    &&& r.mean_execution_time_seconds == zero()
    &&& r.breakdown_nanoseconds is None
    &&& r.also_computes@ == Seq::<char>::empty()
    &&& !r.internally_parallel
    &&& r.mbps == zero()
    &&& r.ns_per_byte == zero()
    &&& r.ids_hash@ == Seq::<char>::empty()
    &&& r.verified is None
    &&& has_no_extras(r)
    &&& r.decode_mbps is None
    &&& r.decode_ns_per_token is None
    &&& r.decode_text_hash is None
    &&& r.decode_unsupported is None
    &&& r.scaling is None
    &&& r.padding_unsupported is None
    &&& !r.reused_text
    &&& r.latency_p50_us is None
    &&& r.latency_p99_us is None
    &&& r.latency_samples is None
    &&& r.latency_document_bytes is None
}

/// Whether nothing that later passes fill in is filled in.
pub open spec fn has_no_extras(r: EngineResult) -> bool {
    &&& r.decode_verified is None
    &&& r.heap_load_mb is None
    &&& r.heap_encode_mb is None
    &&& r.memory_threads is None
    &&& r.memory_parallelism is None
    &&& r.crate_size_kb is None
    &&& r.package_ref is None
    &&& r.binary_delta_kb is None
}

/// A result that holds nothing but a name.
pub fn named_result(name: &str) -> (r: EngineResult)
    ensures
        is_bare(
            r,
            name@,
            Seq::empty(),
            Seq::empty(),
            Seq::empty(),
            zero(),
            None,
        ),
{
    EngineResult {
        tokenizer_name: name.to_owned(),
        total_tokens_produced: 0,
        mean_execution_time_seconds: zero(),
        breakdown_nanoseconds: None,
        engine_version: String::new(),
        engine_lang: String::new(),
        engine_class: String::new(),
        also_computes: String::new(),
        internally_parallel: false,
        load_ms: zero(),
        mbps: zero(),
        ns_per_byte: zero(),
        ids_hash: String::new(),
        verified: None,
        unsupported: None,
        decode_mbps: None,
        decode_ns_per_token: None,
        decode_text_hash: None,
        decode_verified: None,
        decode_unsupported: None,
        heap_load_mb: None,
        heap_encode_mb: None,
        memory_threads: None,
        memory_parallelism: None,
        crate_size_kb: None,
        package_ref: None,
        binary_delta_kb: None,
        scaling: None,
        padding_unsupported: None,
        reused_text: false,
        latency_p50_us: None,
        latency_p99_us: None,
        latency_samples: None,
        latency_document_bytes: None,
    }
}

/// The result of an engine that could not be built.
pub fn unbuilt_result(name: &str, load_ms: Real, why: &str) -> (r: EngineResult)
    ensures
        is_bare(
            r,
            name@,
            Seq::empty(),
            Seq::empty(),
            Seq::empty(),
            load_ms,
            Some(why@),
        ),
{
    let mut r = named_result(name);
    r.load_ms = load_ms;
    r.unsupported = Some(why.to_owned());
    r
}

/// The result of an engine that was built and then failed.
pub fn failed_result(name: &str, info: &Info, load_ms: Real, why: &str) -> (r: EngineResult)
    ensures
        is_bare(
            r,
            name@,
            info.version@,
            info.lang@,
            info.class.label(),
            load_ms,
            Some(why@),
        ),
{
    let mut r = named_result(name);
    r.engine_version = info.version.to_owned();
    r.engine_lang = info.lang.to_owned();
    r.engine_class = info.class.as_str().to_owned();
    r.load_ms = load_ms;
    r.unsupported = Some(why.to_owned());
    r
}

/// An encode timing, in the units of the report.
#[derive(Clone, Copy, Debug)]
pub struct Timing {
    pub secs: Real,
    pub mbps: Real,
    pub ns_per_byte: Real,
    pub reused: bool,
}

/// The ids an engine produced over the whole corpus.
#[derive(Clone, Copy, Debug)]
pub struct Identity {
    pub tokens: usize,
    pub ids_hash: u64,
}

/// A decode timing, in the units of the report.
#[derive(Clone, Copy, Debug)]
pub struct DecodeTiming {
    pub mbps: Real,
    pub ns_per_token: Real,
    pub text_hash: u64,
}

/// A latency, in the units of the report.
#[derive(Clone, Copy, Debug)]
pub struct Latency {
    pub p50_us: Real,
    pub p99_us: Real,
    pub samples: usize,
    pub document_bytes: usize,
}

/// Everything one engine was measured for in one cell. What was not asked for
/// is absent; a decode that was refused has its reason.
pub struct Measured {
    pub timing: Option<Timing>,
    pub identity: Option<Identity>,
    pub decoded: Option<Result<DecodeTiming, String>>,
    pub latency: Option<Latency>,
    pub scaling: Vec<ScalePoint>,
    pub padding_unsupported: Vec<String>,
}

/// The result of an engine that ran.
pub fn measured_result(name: &str, info: &Info, load_ms: Real, m: Measured) -> (r: EngineResult)
    ensures
        r.tokenizer_name@ == name@,
        r.engine_version@ == info.version@,
        r.engine_lang@ == info.lang@,
        r.engine_class@ == info.class.label(),
        r.also_computes@ == info.also_computes@,
        r.internally_parallel == info.internally_parallel,
        r.load_ms == load_ms,
        r.breakdown_nanoseconds is None,
        r.unsupported is None,
        r.verified is None,
        has_no_extras(r),
        r.total_tokens_produced == (match m.identity {
            Some(i) => i.tokens,
            None => 0,
        }),
        r.ids_hash@ == (match m.identity {
            Some(i) => hex16(i.ids_hash),
            None => Seq::empty(),
        }),
        r.mean_execution_time_seconds == (match m.timing {
            Some(t) => t.secs,
            None => zero(),
        }),
        r.mbps == (match m.timing {
            Some(t) => t.mbps,
            None => zero(),
        }),
        r.ns_per_byte == (match m.timing {
            Some(t) => t.ns_per_byte,
            None => zero(),
        }),
        r.reused_text == (m.timing is Some && m.timing->0.reused),
        r.decode_mbps == (match m.decoded {
            Some(Ok(d)) => Some(d.mbps),
            _ => None,
        }),
        r.decode_ns_per_token == (match m.decoded {
            Some(Ok(d)) => Some(d.ns_per_token),
            _ => None,
        }),
        text_of(r.decode_text_hash) == (match m.decoded {
            Some(Ok(d)) => Some(hex16(d.text_hash)),
            _ => None,
        }),
        text_of(r.decode_unsupported) == (match m.decoded {
            Some(Err(why)) => Some(why@),
            _ => None,
        }),
        r.scaling == (if m.scaling@.len() == 0 {
            None
        } else {
            Some(m.scaling)
        }),
        r.padding_unsupported == (if m.padding_unsupported@.len() == 0 {
            None
        } else {
            Some(m.padding_unsupported)
        }),
        r.latency_p50_us == (match m.latency {
            Some(l) => Some(l.p50_us),
            None => None,
        }),
        r.latency_p99_us == (match m.latency {
            Some(l) => Some(l.p99_us),
            None => None,
        }),
        r.latency_samples == (match m.latency {
            Some(l) => Some(l.samples),
            None => None,
        }),
        r.latency_document_bytes == (match m.latency {
            Some(l) => Some(l.document_bytes),
            None => None,
        }),
{
    let mut r = named_result(name);
    r.engine_version = info.version.to_owned();
    r.engine_lang = info.lang.to_owned();
    r.engine_class = info.class.as_str().to_owned();
    r.also_computes = info.also_computes.to_owned();
    r.internally_parallel = info.internally_parallel;
    r.load_ms = load_ms;
    if let Some(i) = m.identity {
        r.total_tokens_produced = i.tokens;
        r.ids_hash = hex16_text(i.ids_hash);
    }
    if let Some(t) = m.timing {
        r.mean_execution_time_seconds = t.secs;
        r.mbps = t.mbps;
        r.ns_per_byte = t.ns_per_byte;
        r.reused_text = t.reused;
    }
    match m.decoded {
        Some(Ok(d)) => {
            r.decode_mbps = Some(d.mbps);
            r.decode_ns_per_token = Some(d.ns_per_token);
            r.decode_text_hash = Some(hex16_text(d.text_hash));
        },
        Some(Err(why)) => {
            r.decode_unsupported = Some(why);
        },
        None => {},
    }
    if m.scaling.len() > 0 {
        r.scaling = Some(m.scaling);
    }
    if m.padding_unsupported.len() > 0 {
        r.padding_unsupported = Some(m.padding_unsupported);
    }
    if let Some(l) = m.latency {
        r.latency_p50_us = Some(l.p50_us);
        r.latency_p99_us = Some(l.p99_us);
        r.latency_samples = Some(l.samples);
        r.latency_document_bytes = Some(l.document_bytes);
    }
    r
}

// ---------------------------------------------------------------------------
// Scripted engines
// ---------------------------------------------------------------------------

/// What a scripted engine reports of itself.
pub struct ScriptedReport {
    pub version: String,
    pub lang: String,
    pub secs: Real,
    pub tokens: usize,
    pub bytes: usize,
    pub ids_hash: u64,
    pub load_ms: Real,
    pub also_computes: String,
    pub internally_parallel: bool,
    pub phases: Option<Vec<(String, u64)>>,
    pub unsupported: Option<String>,
}

/// The nanoseconds of a phase, zero where it is not named.
pub open spec fn phase(phases: Seq<(String, u64)>, name: Seq<char>) -> u64
    decreases phases.len(),
{
    if phases.len() == 0 {
        0
    } else if phases[0].0@ == name {
        phases[0].1
    } else {
        phase(phases.drop_first(), name)
    }
}

fn find_phase(phases: &Vec<(String, u64)>, name: &str) -> (r: u64)
    ensures
        r == phase(phases@, name@),
{
    let mut i: usize = 0;
    assert(phases@.skip(0) =~= phases@);
    while i < phases.len()
        invariant
            i <= phases@.len(),
            phase(phases@, name@) == phase(phases@.skip(i as int), name@),
        decreases phases@.len() - i,
    {
        if same(phases[i].0.as_str(), name) {
            return phases[i].1;
        }
        assert(phases@.skip(i as int).drop_first() =~= phases@.skip(i + 1));
        i = i + 1;
    }
    0
}

/// The result of a scripted engine. `mbps` and `ns_per_byte` are what its
/// seconds and bytes come to.
pub fn scripted_result(name: &str, report: ScriptedReport, mbps: Real, ns_per_byte: Real) -> (r:
    EngineResult)
    ensures
        report.unsupported matches Some(why) ==> is_bare(
            r,
            name@,
            report.version@,
            report.lang@,
            "subprocess"@,
            report.load_ms,
            Some(why@),
        ),
        report.unsupported is None ==> {
            &&& r.tokenizer_name@ == name@
            &&& r.total_tokens_produced == report.tokens
            &&& r.mean_execution_time_seconds == report.secs
            &&& r.breakdown_nanoseconds == (match report.phases {
                Some(p) => Some(
                    Breakdown {
                        normalization: phase(p@, "normalization"@),
                        pre_tokenization: phase(p@, "pre_tokenization"@),
                        core_encoding: phase(p@, "core_encoding"@),
                        post_processing: phase(p@, "post_processing"@),
                    },
                ),
                None => None,
            })
            &&& r.engine_version@ == report.version@
            &&& r.engine_lang@ == report.lang@
            &&& r.engine_class@ == "subprocess"@
            &&& r.also_computes@ == report.also_computes@
            &&& r.internally_parallel == report.internally_parallel
            &&& r.load_ms == report.load_ms
            &&& r.mbps == mbps
            &&& r.ns_per_byte == ns_per_byte
            &&& r.ids_hash@ == hex16(report.ids_hash)
            &&& r.verified is None
            &&& r.unsupported is None
            &&& has_no_extras(r)
            &&& r.decode_mbps is None
            &&& r.decode_ns_per_token is None
            &&& r.decode_text_hash is None
            &&& r.decode_unsupported is None
            &&& r.scaling is None
            &&& r.padding_unsupported is None
            &&& !r.reused_text
            &&& r.latency_p50_us is None
            &&& r.latency_p99_us is None
            &&& r.latency_samples is None
            &&& r.latency_document_bytes is None
        },
{
    let mut r = named_result(name);
    r.engine_version = report.version;
    r.engine_lang = report.lang;
    r.engine_class = "subprocess".to_owned();
    r.load_ms = report.load_ms;
    match report.unsupported {
        Some(why) => {
            r.unsupported = Some(why);
        },
        None => {
            r.total_tokens_produced = report.tokens;
            r.mean_execution_time_seconds = report.secs;
            r.breakdown_nanoseconds = match &report.phases {
                Some(p) => Some(
                    Breakdown {
                        normalization: find_phase(p, "normalization"),
                        pre_tokenization: find_phase(p, "pre_tokenization"),
                        core_encoding: find_phase(p, "core_encoding"),
                        post_processing: find_phase(p, "post_processing"),
                    },
                ),
                None => None,
            };
            r.also_computes = report.also_computes;
            r.internally_parallel = report.internally_parallel;
            r.mbps = mbps;
            r.ns_per_byte = ns_per_byte;
            r.ids_hash = hex16_text(report.ids_hash);
        },
    }
    r
}

// ---------------------------------------------------------------------------
// Verification
// ---------------------------------------------------------------------------

/// The first result of the reference engine that ran, if there is one.
pub open spec fn reference_at(results: Seq<EngineResult>) -> Option<int>
    decreases results.len(),
{
    if results.len() == 0 {
        None
    } else {
        match reference_at(results.drop_last()) {
            Some(i) => Some(i),
            None => if results.last().tokenizer_name@ == REFERENCE@
                && results.last().unsupported is None {
                Some(results.len() - 1)
            } else {
                None
            },
        }
    }
}

/// A result once its ids were compared with the reference's.
pub open spec fn checked(r: EngineResult, reference: Option<Seq<char>>) -> EngineResult {
    if reference is Some && r.unsupported is None {
        EngineResult { verified: Some(r.ids_hash@ == reference->0), ..r }
    } else {
        r
    }
}

/// The ids hash of the reference, if it ran.
pub open spec fn reference_hash(results: Seq<EngineResult>) -> Option<Seq<char>> {
    match reference_at(results) {
        Some(i) => Some(results[i].ids_hash@),
        None => None,
    }
}

/// The names of the results that fail a check, in order.
pub open spec fn failing(
    results: Seq<EngineResult>,
    fails: spec_fn(EngineResult) -> bool,
) -> Seq<Seq<char>>
    decreases results.len(),
{
    if results.len() == 0 {
        Seq::empty()
    } else if fails(results.last()) {
        failing(results.drop_last(), fails).push(results.last().tokenizer_name@)
    } else {
        failing(results.drop_last(), fails)
    }
}

fn find_reference(results: &Vec<EngineResult>) -> (r: Option<String>)
    ensures
        text_of(r) == reference_hash(results@),
{
    let mut i: usize = 0;
    assert(results@.take(0) =~= Seq::empty());
    while i < results.len()
        invariant
            i <= results@.len(),
            reference_at(results@.take(i as int)) is None,
        decreases results@.len() - i,
    {
        assert(results@.take(i + 1).drop_last() =~= results@.take(i as int));
        if same(results[i].tokenizer_name.as_str(), REFERENCE) && results[i].unsupported.is_none() {
            proof {
                lemma_reference_stays(results@, i + 1);
            }
            return Some(results[i].ids_hash.clone());
        }
        i = i + 1;
    }
    assert(results@.take(results@.len() as int) =~= results@);
    None
}

proof fn lemma_reference_stays(results: Seq<EngineResult>, n: int)
    requires
        0 <= n <= results.len(),
        reference_at(results.take(n)) is Some,
    ensures
        reference_at(results) == reference_at(results.take(n)),
    decreases results.len(),
{
    if n < results.len() {
        assert(results.drop_last().take(n) =~= results.take(n));
        lemma_reference_stays(results.drop_last(), n);
    } else {
        assert(results.take(n) =~= results);
    }
}

/// Compares every result's ids with the reference's and answers with the names
/// of those that differ. Without a reference nothing is checked.
pub fn verify_ids(results: &mut Vec<EngineResult>) -> (bad: Vec<String>)
    ensures
        final(results)@.len() == old(results)@.len(),
        forall|i: int|
            0 <= i < old(results)@.len() ==> #[trigger] final(results)@[i] == checked(
                old(results)@[i],
                reference_hash(old(results)@),
            ),
        crate::scan::contents(bad@) == if reference_hash(old(results)@) is Some {
            failing(final(results)@, |r: EngineResult| r.verified == Some(false))
        } else {
            Seq::empty()
        },
{
    let mut bad: Vec<String> = Vec::new();
    assert(crate::scan::contents(bad@) =~= Seq::empty());
    let reference = match find_reference(results) {
        Some(hash) => hash,
        None => {
            return bad;
        },
    };
    let ghost fails = |r: EngineResult| r.verified == Some(false);
    let ghost was = results@;
    let mut i: usize = 0;
    assert(results@.take(0) =~= Seq::empty());
    while i < results.len()
        invariant
            i <= results@.len(),
            was == old(results)@,
            results@.len() == was.len(),
            reference_hash(was) == Some(reference@),
            fails == (|r: EngineResult| r.verified == Some(false)),
            forall|k: int|
                0 <= k < i ==> #[trigger] results@[k] == checked(was[k], Some(reference@)),
            forall|k: int| i <= k < was.len() ==> #[trigger] results@[k] == was[k],
            crate::scan::contents(bad@) =~= failing(results@.take(i as int), fails),
        decreases was.len() - i,
    {
        let ghost before = results@;
        if results[i].unsupported.is_none() {
            let agrees = same(results[i].ids_hash.as_str(), reference.as_str());
            results[i].verified = Some(agrees);
        }
        let ghost now = results@;
        assert(now[i as int] == checked(was[i as int], Some(reference@)));
        assert(now.take(i + 1).drop_last() =~= before.take(i as int));
        let wrong = match results[i].verified {
            Some(v) => !v,
            None => false,
        };
        if wrong {
            bad.push(results[i].tokenizer_name.clone());
        }
        i = i + 1;
    }
    assert(results@.take(results@.len() as int) =~= results@);
    bad
}

/// The reference passes its own check, and with it exactly the results whose
/// ids hash to the same.
pub proof fn law_reference_passes(results: Seq<EngineResult>)
    requires
        reference_at(results) is Some,
    ensures
        0 <= reference_at(results)->0 < results.len(),
        checked(results[reference_at(results)->0], reference_hash(results)).verified == Some(true),
        forall|i: int|
            0 <= i < results.len() && (#[trigger] results[i]).unsupported is None ==> (checked(
                results[i],
                reference_hash(results),
            ).verified == Some(true) <==> results[i].ids_hash@
                == results[reference_at(results)->0].ids_hash@),
    decreases results.len(),
{
    lemma_reference_in_range(results);
}

proof fn lemma_reference_in_range(results: Seq<EngineResult>)
    requires
        reference_at(results) is Some,
    ensures
        0 <= reference_at(results)->0 < results.len(),
        results[reference_at(results)->0].tokenizer_name@ == REFERENCE@,
        results[reference_at(results)->0].unsupported is None,
    decreases results.len(),
{
    if reference_at(results.drop_last()) is Some {
        lemma_reference_in_range(results.drop_last());
    }
}

/// The decoded text's hash of the first result under the reference's name, if
/// it has one.
pub open spec fn reference_text(results: Seq<EngineResult>) -> Option<Seq<char>>
    decreases results.len(),
{
    if results.len() == 0 {
        None
    } else if results[0].tokenizer_name@ == REFERENCE@ {
        text_of(results[0].decode_text_hash)
    } else {
        reference_text(results.drop_first())
    }
}

/// A result once its decoded text was compared with the reference's.
pub open spec fn decode_checked(r: EngineResult, reference: Option<Seq<char>>) -> EngineResult {
    if reference is Some && r.decode_text_hash is Some {
        EngineResult {
            decode_verified: Some(r.decode_text_hash->0@ == reference->0),
            ..r
        }
    } else {
        r
    }
}

fn find_reference_text(results: &Vec<EngineResult>) -> (r: Option<String>)
    ensures
        text_of(r) == reference_text(results@),
{
    let mut i: usize = 0;
    assert(results@.skip(0) =~= results@);
    while i < results.len()
        invariant
            i <= results@.len(),
            reference_text(results@) == reference_text(results@.skip(i as int)),
        decreases results@.len() - i,
    {
        if same(results[i].tokenizer_name.as_str(), REFERENCE) {
            return match &results[i].decode_text_hash {
                Some(hash) => Some(hash.clone()),
                None => None,
            };
        }
        assert(results@.skip(i as int).drop_first() =~= results@.skip(i + 1));
        i = i + 1;
    }
    None
}

/// Compares every result's decoded text with the reference's and answers with
/// the names of those that differ. Without a reference nothing is checked.
pub fn verify_decode(results: &mut Vec<EngineResult>) -> (bad: Vec<String>)
    ensures
        final(results)@.len() == old(results)@.len(),
        forall|i: int|
            0 <= i < old(results)@.len() ==> #[trigger] final(results)@[i] == decode_checked(
                old(results)@[i],
                reference_text(old(results)@),
            ),
        crate::scan::contents(bad@) == if reference_text(old(results)@) is Some {
            failing(final(results)@, |r: EngineResult| r.decode_verified == Some(false))
        } else {
            Seq::empty()
        },
{
    let mut bad: Vec<String> = Vec::new();
    assert(crate::scan::contents(bad@) =~= Seq::empty());
    let reference = match find_reference_text(results) {
        Some(hash) => hash,
        None => {
            return bad;
        },
    };
    let ghost fails = |r: EngineResult| r.decode_verified == Some(false);
    let ghost was = results@;
    let mut i: usize = 0;
    assert(results@.take(0) =~= Seq::empty());
    while i < results.len()
        invariant
            i <= results@.len(),
            was == old(results)@,
            results@.len() == was.len(),
            reference_text(was) == Some(reference@),
            fails == (|r: EngineResult| r.decode_verified == Some(false)),
            forall|k: int|
                0 <= k < i ==> #[trigger] results@[k] == decode_checked(was[k], Some(reference@)),
            forall|k: int| i <= k < was.len() ==> #[trigger] results@[k] == was[k],
            crate::scan::contents(bad@) =~= failing(results@.take(i as int), fails),
        decreases was.len() - i,
    {
        let ghost before = results@;
        let agrees = match &results[i].decode_text_hash {
            Some(hash) => Some(same(hash.as_str(), reference.as_str())),
            None => None,
        };
        if agrees.is_some() {
            results[i].decode_verified = agrees;
        }
        let ghost now = results@;
        assert(now[i as int] == decode_checked(was[i as int], Some(reference@)));
        assert(now.take(i + 1).drop_last() =~= before.take(i as int));
        let wrong = match results[i].decode_verified {
            Some(v) => !v,
            None => false,
        };
        if wrong {
            bad.push(results[i].tokenizer_name.clone());
        }
        i = i + 1;
    }
    assert(results@.take(results@.len() as int) =~= results@);
    bad
}

/// Whether a list of places rises from each to the next.
pub open spec fn rises(at: Seq<int>) -> bool {
    forall|i: int, j: int| 0 <= i < j < at.len() ==> #[trigger] at[i] < #[trigger] at[j]
}

proof fn lemma_failing(results: Seq<EngineResult>, fails: spec_fn(EngineResult) -> bool)
    ensures
        exists|at: Seq<int>| #[trigger]
            rises(at) && (forall|i: int|
                #[trigger] at.contains(i) <==> 0 <= i < results.len() && fails(results[i]))
                && failing(results, fails).len() == at.len() && (forall|k: int|
                0 <= k < at.len() ==> #[trigger] failing(results, fails)[k]
                    == results[at[k]].tokenizer_name@),
    decreases results.len(),
{
    if results.len() == 0 {
        let at = Seq::<int>::empty();
        assert(rises(at));
    } else {
        let less = results.drop_last();
        lemma_failing(less, fails);
        let at = choose|at: Seq<int>| #[trigger]
            rises(at) && (forall|i: int|
                #[trigger] at.contains(i) <==> 0 <= i < less.len() && fails(less[i])) && failing(
                less,
                fails,
            ).len() == at.len() && (forall|k: int|
                0 <= k < at.len() ==> #[trigger] failing(less, fails)[k]
                    == less[at[k]].tokenizer_name@);
        assert forall|k: int| 0 <= k < at.len() implies 0 <= #[trigger] at[k] < less.len() by {
            assert(at.contains(at[k]));
        }
        let last = results.len() - 1;
        let now = if fails(results.last()) {
            at.push(last)
        } else {
            at
        };
        assert forall|i: int| #[trigger] now.contains(i) <==> 0 <= i < results.len() && fails(
            results[i],
        ) by {
            if now.contains(i) {
                let k = choose|k: int| 0 <= k < now.len() && now[k] == i;
                if k < at.len() {
                    assert(at.contains(at[k]));
                }
            }
            if 0 <= i < results.len() && fails(results[i]) {
                if i < last {
                    assert(less[i] == results[i]);
                    assert(at.contains(i));
                    let k = choose|k: int| 0 <= k < at.len() && at[k] == i;
                    assert(now[k] == i);
                } else {
                    assert(now[now.len() - 1] == i);
                }
            }
        }
        assert(rises(now));
        assert forall|k: int| 0 <= k < now.len() implies #[trigger] failing(results, fails)[k]
            == results[now[k]].tokenizer_name@ by {
            if k < at.len() {
                assert(failing(results, fails)[k] == failing(less, fails)[k]);
            }
        }
    }
}

/// Whether the result at `p` is the first of those that `picks` holds of.
pub open spec fn is_first(
    results: Seq<EngineResult>,
    p: int,
    picks: spec_fn(EngineResult) -> bool,
) -> bool {
    &&& 0 <= p < results.len()
    &&& picks(results[p])
    &&& forall|q: int| 0 <= q < p ==> !picks(#[trigger] results[q])
}

proof fn lemma_reference_text(results: Seq<EngineResult>, p: int)
    requires
        is_first(results, p, |r: EngineResult| r.tokenizer_name@ == "hf-tokenizers"@),
    ensures
        reference_text(results) == text_of(results[p].decode_text_hash),
    decreases results.len(),
{
    if p > 0 {
        let rest = results.drop_first();
        assert(!(results[0].tokenizer_name@ == "hf-tokenizers"@));
        assert forall|q: int| 0 <= q < p - 1 implies !((#[trigger] rest[q]).tokenizer_name@
            == "hf-tokenizers"@) by {
            assert(rest[q] == results[q + 1]);
        }
        lemma_reference_text(rest, p - 1);
    }
}

proof fn lemma_no_reference_text(results: Seq<EngineResult>)
    requires
        forall|q: int|
            0 <= q < results.len() ==> (#[trigger] results[q]).tokenizer_name@ != "hf-tokenizers"@,
    ensures
        reference_text(results) is None,
    decreases results.len(),
{
    if results.len() > 0 {
        let rest = results.drop_first();
        assert forall|q: int| 0 <= q < rest.len() implies (#[trigger] rest[q]).tokenizer_name@
            != "hf-tokenizers"@ by {
            assert(rest[q] == results[q + 1]);
        }
        lemma_no_reference_text(rest);
    }
}

proof fn lemma_reference_hash(results: Seq<EngineResult>, p: int)
    requires
        is_first(
            results,
            p,
            |r: EngineResult| r.tokenizer_name@ == "hf-tokenizers"@ && r.unsupported is None,
        ),
    ensures
        reference_at(results) == Some(p),
    decreases results.len(),
{
    let less = results.drop_last();
    if p < less.len() {
        assert forall|q: int| 0 <= q < p implies !((#[trigger] less[q]).tokenizer_name@
            == "hf-tokenizers"@ && less[q].unsupported is None) by {
            assert(less[q] == results[q]);
        }
        lemma_reference_hash(less, p);
    } else {
        if reference_at(less) is Some {
            lemma_reference_in_range(less);
            assert(less[reference_at(less)->0] == results[reference_at(less)->0]);
        }
    }
}

/// Every decoded text is judged by itself: once the first result under the
/// reference's name has a text, another passes exactly where its text hashes to
/// the same, whatever else is said of it. Nothing else of any result changes, and
/// the names answered are, in order, those of the results that then stand as
/// failed.
pub proof fn law_decode_is_judged_by_the_text(
    before: Vec<EngineResult>,
    after: Vec<EngineResult>,
    bad: Vec<String>,
    p: int,
)
    requires
        exists|v: &mut Vec<EngineResult>|
            *v == before && *final(v) == after && #[trigger] call_ensures(
                verify_decode,
                (v,),
                bad,
            ),
        is_first(before@, p, |r: EngineResult| r.tokenizer_name@ == "hf-tokenizers"@),
        before@[p].decode_text_hash is Some,
    ensures
        after@.len() == before@.len(),
        after@[p].decode_verified == Some(true),
        forall|i: int|
            0 <= i < before@.len() && (#[trigger] before@[i]).decode_text_hash is Some
                ==> after@[i].decode_verified == Some(
                before@[i].decode_text_hash->0@ == before@[p].decode_text_hash->0@,
            ),
        forall|i: int|
            0 <= i < before@.len() ==> (#[trigger] after@[i]) == (EngineResult {
                decode_verified: after@[i].decode_verified,
                ..before@[i]
            }),
        forall|i: int|
            0 <= i < before@.len() && (#[trigger] before@[i]).decode_text_hash is None ==> after@[i]
                == before@[i],
        exists|at: Seq<int>| #[trigger]
            rises(at) && (forall|i: int|
                #[trigger] at.contains(i) <==> 0 <= i < before@.len() && after@[i].decode_verified
                    == Some(false)) && bad@.len() == at.len() && forall|k: int|
                0 <= k < bad@.len() ==> (#[trigger] bad@[k])@ == before@[at[k]].tokenizer_name@,
{
    lemma_reference_text(before@, p);
    let fails = |r: EngineResult| r.decode_verified == Some(false);
    lemma_failing(after@, fails);
    let at = choose|at: Seq<int>| #[trigger]
        rises(at) && (forall|i: int|
            #[trigger] at.contains(i) <==> 0 <= i < after@.len() && fails(after@[i])) && failing(
            after@,
            fails,
        ).len() == at.len() && (forall|k: int|
            0 <= k < at.len() ==> #[trigger] failing(after@, fails)[k]
                == after@[at[k]].tokenizer_name@);
    assert(crate::scan::contents(bad@).len() == bad@.len());
    assert forall|k: int| 0 <= k < bad@.len() implies (#[trigger] bad@[k])@
        == before@[at[k]].tokenizer_name@ by {
        assert(crate::scan::contents(bad@)[k] == bad@[k]@);
        assert(at.contains(at[k]));
    }
}

/// Without a decoded text of the reference, no result is judged.
pub proof fn law_decode_needs_the_reference(
    before: Vec<EngineResult>,
    after: Vec<EngineResult>,
    bad: Vec<String>,
)
    requires
        exists|v: &mut Vec<EngineResult>|
            *v == before && *final(v) == after && #[trigger] call_ensures(
                verify_decode,
                (v,),
                bad,
            ),
        forall|i: int|
            0 <= i < before@.len() && (#[trigger] before@[i]).tokenizer_name@ == "hf-tokenizers"@
                ==> before@[i].decode_text_hash is None,
    ensures
        after@ == before@,
        bad@.len() == 0,
{
    if exists|q: int|
        0 <= q < before@.len() && (#[trigger] before@[q]).tokenizer_name@ == "hf-tokenizers"@ {
        let named = |r: EngineResult| r.tokenizer_name@ == "hf-tokenizers"@;
        let q = choose|q: int|
            0 <= q < before@.len() && (#[trigger] before@[q]).tokenizer_name@ == "hf-tokenizers"@;
        assert(named(before@[q]));
        lemma_some_first(before@, named);
        let p = choose|p: int| #[trigger] is_first(before@, p, named);
        assert(is_first(before@, p, |r: EngineResult| r.tokenizer_name@ == "hf-tokenizers"@));
        lemma_reference_text(before@, p);
    } else {
        lemma_no_reference_text(before@);
    }
    assert(after@ =~= before@);
    assert(crate::scan::contents(bad@).len() == bad@.len());
}

proof fn lemma_some_first(results: Seq<EngineResult>, picks: spec_fn(EngineResult) -> bool)
    requires
        exists|q: int| 0 <= q < results.len() && picks(#[trigger] results[q]),
    ensures
        exists|p: int| #[trigger] is_first(results, p, picks),
    decreases results.len(),
{
    let less = results.drop_last();
    if exists|q: int| 0 <= q < less.len() && picks(#[trigger] less[q]) {
        lemma_some_first(less, picks);
        let p = choose|p: int| #[trigger] is_first(less, p, picks);
        assert forall|q: int| 0 <= q < p implies !picks(#[trigger] results[q]) by {
            assert(less[q] == results[q]);
        }
        assert(is_first(results, p, picks));
    } else {
        assert forall|q: int| 0 <= q < results.len() - 1 implies !picks(#[trigger] results[q]) by {
            assert(less[q] == results[q]);
        }
        assert(is_first(results, results.len() - 1, picks));
    }
}

/// Every result that ran is judged by its ids alone: it passes exactly where they
/// hash to the same as those of the first result under the reference's name that
/// ran. Nothing else of any result changes, and the names answered are, in order,
/// those of the results that then stand as failed.
pub proof fn law_ids_are_judged_by_the_hash(
    before: Vec<EngineResult>,
    after: Vec<EngineResult>,
    bad: Vec<String>,
    p: int,
)
    requires
        exists|v: &mut Vec<EngineResult>|
            *v == before && *final(v) == after && #[trigger] call_ensures(verify_ids, (v,), bad),
        is_first(
            before@,
            p,
            |r: EngineResult| r.tokenizer_name@ == "hf-tokenizers"@ && r.unsupported is None,
        ),
    ensures
        after@.len() == before@.len(),
        after@[p].verified == Some(true),
        forall|i: int|
            0 <= i < before@.len() && (#[trigger] before@[i]).unsupported is None
                ==> after@[i].verified == Some(before@[i].ids_hash@ == before@[p].ids_hash@),
        forall|i: int|
            0 <= i < before@.len() ==> (#[trigger] after@[i]) == (EngineResult {
                verified: after@[i].verified,
                ..before@[i]
            }),
        forall|i: int|
            0 <= i < before@.len() && (#[trigger] before@[i]).unsupported is Some ==> after@[i]
                == before@[i],
        exists|at: Seq<int>| #[trigger]
            rises(at) && (forall|i: int|
                #[trigger] at.contains(i) <==> 0 <= i < before@.len() && after@[i].verified == Some(
                    false,
                )) && bad@.len() == at.len() && forall|k: int|
                0 <= k < bad@.len() ==> (#[trigger] bad@[k])@ == before@[at[k]].tokenizer_name@,
{
    lemma_reference_hash(before@, p);
    let fails = |r: EngineResult| r.verified == Some(false);
    lemma_failing(after@, fails);
    let at = choose|at: Seq<int>| #[trigger]
        rises(at) && (forall|i: int|
            #[trigger] at.contains(i) <==> 0 <= i < after@.len() && fails(after@[i])) && failing(
            after@,
            fails,
        ).len() == at.len() && (forall|k: int|
            0 <= k < at.len() ==> #[trigger] failing(after@, fails)[k]
                == after@[at[k]].tokenizer_name@);
    assert(crate::scan::contents(bad@).len() == bad@.len());
    assert forall|k: int| 0 <= k < bad@.len() implies (#[trigger] bad@[k])@
        == before@[at[k]].tokenizer_name@ by {
        assert(crate::scan::contents(bad@)[k] == bad@[k]@);
        assert(at.contains(at[k]));
    }
}

/// Where no result under the reference's name ran, no ids are judged.
pub proof fn law_ids_need_the_reference(
    before: Vec<EngineResult>,
    after: Vec<EngineResult>,
    bad: Vec<String>,
)
    requires
        exists|v: &mut Vec<EngineResult>|
            *v == before && *final(v) == after && #[trigger] call_ensures(verify_ids, (v,), bad),
        forall|i: int|
            0 <= i < before@.len() && (#[trigger] before@[i]).tokenizer_name@ == "hf-tokenizers"@
                ==> before@[i].unsupported is Some,
    ensures
        after@ == before@,
        bad@.len() == 0,
{
    if reference_at(before@) is Some {
        lemma_reference_in_range(before@);
    }
    assert(after@ =~= before@);
    assert(crate::scan::contents(bad@).len() == bad@.len());
}

// ---------------------------------------------------------------------------
// Sizes
// ---------------------------------------------------------------------------

/// A published package: its size, its version and the registry it is from.
#[derive(Clone, Debug)]
pub struct PackageSize {
    pub kb: Option<Real>,
    pub version: Option<String>,
    pub registry: Option<String>,
}

/// The position of a name in a list of named things.
pub open spec fn place_of<T>(list: Seq<(String, T)>, name: Seq<char>) -> Option<int>
    decreases list.len(),
{
    if list.len() == 0 {
        None
    } else {
        match place_of(list.drop_last(), name) {
            Some(i) => Some(i),
            None => if list.last().0@ == name {
                Some(list.len() - 1)
            } else {
                None
            },
        }
    }
}

proof fn lemma_place_stays<T>(list: Seq<(String, T)>, name: Seq<char>, n: int)
    requires
        0 <= n <= list.len(),
        place_of(list.take(n), name) is Some,
    ensures
        place_of(list, name) == place_of(list.take(n), name),
    decreases list.len(),
{
    if n < list.len() {
        assert(list.drop_last().take(n) =~= list.take(n));
        lemma_place_stays(list.drop_last(), name, n);
    } else {
        assert(list.take(n) =~= list);
    }
}

/// `place_of`, computed.
pub fn find_place<T>(list: &Vec<(String, T)>, name: &str) -> (r: Option<usize>)
    ensures
        r is None ==> place_of(list@, name@) is None,
        r matches Some(i) ==> place_of(list@, name@) == Some(i as int) && i < list@.len(),
{
    let mut i: usize = 0;
    assert(list@.take(0) =~= Seq::empty());
    while i < list.len()
        invariant
            i <= list@.len(),
            place_of(list@.take(i as int), name@) is None,
        decreases list@.len() - i,
    {
        assert(list@.take(i + 1).drop_last() =~= list@.take(i as int));
        if same(list[i].0.as_str(), name) {
            proof {
                lemma_place_stays(list@, name@, i + 1);
            }
            return Some(i);
        }
        i = i + 1;
    }
    assert(list@.take(list@.len() as int) =~= list@);
    None
}

/// How a package is referred to: its version, with the registry in brackets
/// where it is known.
pub open spec fn reference_of(p: PackageSize) -> Option<Seq<char>> {
    match (p.version, p.registry) {
        (Some(v), Some(reg)) => Some(v@ + " ("@ + reg@ + ")"@),
        (Some(v), None) => Some(v@),
        _ => None,
    }
}

/// `reference_of`, computed.
pub fn package_ref(p: &PackageSize) -> (r: Option<String>)
    ensures
        text_of(r) == reference_of(*p),
{
    match &p.version {
        Some(v) => {
            let mut s = v.clone();
            if let Some(reg) = &p.registry {
                s.append(" (");
                s.append(reg.as_str());
                s.append(")");
            }
            Some(s)
        },
        None => None,
    }
}

/// Whether `now` is `was` with the sizes of its engine filled in.
pub open spec fn sized(
    was: EngineResult,
    now: EngineResult,
    binaries: Seq<(String, Real)>,
    packages: Seq<(String, PackageSize)>,
) -> bool {
    let name = was.tokenizer_name@;
    let binary = match place_of(binaries, name) {
        Some(i) => Some(binaries[i].1),
        None => None,
    };
    match place_of(packages, name) {
        Some(i) => {
            &&& now == (EngineResult {
                binary_delta_kb: binary,
                crate_size_kb: packages[i].1.kb,
                package_ref: now.package_ref,
                ..was
            })
            &&& text_of(now.package_ref) == reference_of(packages[i].1)
        },
        None => now == (EngineResult { binary_delta_kb: binary, ..was }),
    }
}

/// Fills in the binary and package sizes of every result. A name is looked up
/// once: a list holds each at most once.
pub fn attach_sizes(
    results: &mut Vec<EngineResult>,
    binaries: &Vec<(String, Real)>,
    packages: &Vec<(String, PackageSize)>,
)
    ensures
        final(results)@.len() == old(results)@.len(),
        forall|i: int|
            0 <= i < old(results)@.len() ==> sized(
                old(results)@[i],
                #[trigger] final(results)@[i],
                binaries@,
                packages@,
            ),
{
    let ghost was = results@;
    let mut i: usize = 0;
    while i < results.len()
        invariant
            i <= results@.len(),
            was == old(results)@,
            results@.len() == was.len(),
            forall|k: int|
                0 <= k < i ==> sized(was[k], #[trigger] results@[k], binaries@, packages@),
            forall|k: int| i <= k < was.len() ==> #[trigger] results@[k] == was[k],
        decreases was.len() - i,
    {
        let name = results[i].tokenizer_name.clone();
        let binary = match find_place(binaries, name.as_str()) {
            Some(b) => Some(binaries[b].1),
            None => None,
        };
        results[i].binary_delta_kb = binary;
        match find_place(packages, name.as_str()) {
            Some(p) => {
                results[i].crate_size_kb = packages[p].1.kb;
                results[i].package_ref = package_ref(&packages[p].1);
            },
            None => {},
        }
        assert(sized(was[i as int], results@[i as int], binaries@, packages@));
        i = i + 1;
    }
}

// ---------------------------------------------------------------------------
// Footprint
// ---------------------------------------------------------------------------

/// What the footprint pass found of one engine.
pub struct Footprint {
    pub heap_load_mb: Option<Real>,
    pub heap_encode_mb: Option<Real>,
    pub memory_threads: Option<usize>,
    pub memory_parallelism: Option<String>,
    pub engine_version: Option<String>,
    pub engine_lang: Option<String>,
    pub engine_class: Option<String>,
    pub also_computes: Option<String>,
    pub internally_parallel: Option<bool>,
    pub unsupported: Option<String>,
}

/// A value that is replaced where there is a newer one.
pub open spec fn newer<T>(old_value: T, new_value: Option<T>) -> T {
    match new_value {
        Some(v) => v,
        None => old_value,
    }
}

/// A result with the footprint of its engine filled in.
pub open spec fn with_footprint(r: EngineResult, m: Footprint) -> EngineResult {
    EngineResult {
        heap_load_mb: m.heap_load_mb,
        heap_encode_mb: m.heap_encode_mb,
        memory_threads: m.memory_threads,
        memory_parallelism: m.memory_parallelism,
        engine_version: newer(r.engine_version, m.engine_version),
        engine_lang: newer(r.engine_lang, m.engine_lang),
        engine_class: newer(r.engine_class, m.engine_class),
        also_computes: newer(r.also_computes, m.also_computes),
        internally_parallel: newer(r.internally_parallel, m.internally_parallel),
        unsupported: if m.unsupported is Some {
            m.unsupported
        } else {
            r.unsupported
        },
        ..r
    }
}

/// Fills the footprint of an engine into its result. What the footprint says of
/// the engine replaces what was there; what it leaves out stays.
pub fn apply_footprint(r: &mut EngineResult, m: Footprint)
    ensures
        *final(r) == with_footprint(*old(r), m),
{
    r.heap_load_mb = m.heap_load_mb;
    r.heap_encode_mb = m.heap_encode_mb;
    r.memory_threads = m.memory_threads;
    r.memory_parallelism = m.memory_parallelism;
    if let Some(value) = m.engine_version {
        r.engine_version = value;
    }
    if let Some(value) = m.engine_lang {
        r.engine_lang = value;
    }
    if let Some(value) = m.engine_class {
        r.engine_class = value;
    }
    if let Some(value) = m.also_computes {
        r.also_computes = value;
    }
    if let Some(value) = m.internally_parallel {
        r.internally_parallel = value;
    }
    if m.unsupported.is_some() {
        r.unsupported = m.unsupported;
    }
}

// ---------------------------------------------------------------------------
// What the answers are
// ---------------------------------------------------------------------------

/// Whether a result holds no number of any pass, and no word of what is beside the
/// passes.
pub open spec fn nothing_measured(r: EngineResult) -> bool {
    let none = Real { bits: 0 };
    &&& r.total_tokens_produced == 0 && r.ids_hash@.len() == 0 && r.verified is None
    &&& r.mean_execution_time_seconds == none && r.mbps == none && r.ns_per_byte == none
    &&& r.breakdown_nanoseconds is None && !r.reused_text
    &&& r.also_computes@.len() == 0 && !r.internally_parallel
    &&& no_decode(r) && r.decode_unsupported is None
    &&& no_latency(r)
    &&& r.scaling is None && r.padding_unsupported is None
    &&& no_sizes(r)
}

/// Whether a result says nothing of decoding.
pub open spec fn no_decode(r: EngineResult) -> bool {
    r.decode_mbps is None && r.decode_ns_per_token is None && r.decode_text_hash is None
        && r.decode_verified is None
}

/// Whether a result says nothing of latency.
pub open spec fn no_latency(r: EngineResult) -> bool {
    r.latency_p50_us is None && r.latency_p99_us is None && r.latency_samples is None
        && r.latency_document_bytes is None
}

/// Whether a result says nothing of a footprint or of sizes.
pub open spec fn no_sizes(r: EngineResult) -> bool {
    r.heap_load_mb is None && r.heap_encode_mb is None && r.memory_threads is None
        && r.memory_parallelism is None && r.crate_size_kb is None && r.package_ref is None
        && r.binary_delta_kb is None
}

/// Where nothing was measured nothing is claimed: the result holds the name, and of an
/// engine that failed why it did, how long it took to load, and, where it had been
/// built, what it says of itself.
pub proof fn law_failures_claim_nothing(
    name: &str,
    info: &Info,
    load_ms: Real,
    why: &str,
    named: EngineResult,
    unbuilt: EngineResult,
    failed: EngineResult,
    class: &'static str,
)
    requires
        call_ensures(named_result, (name,), named),
        call_ensures(unbuilt_result, (name, load_ms, why), unbuilt),
        call_ensures(failed_result, (name, info, load_ms, why), failed),
        call_ensures(crate::engine::Class::as_str, (info.class,), class),
    ensures
        nothing_measured(named) && nothing_measured(unbuilt) && nothing_measured(failed),
        named.tokenizer_name@ == name@ && unbuilt.tokenizer_name@ == name@
            && failed.tokenizer_name@ == name@,
        named.unsupported is None && named.load_ms == (Real { bits: 0 }),
        unbuilt.unsupported is Some && unbuilt.unsupported->0@ == why@,
        failed.unsupported is Some && failed.unsupported->0@ == why@,
        unbuilt.load_ms == load_ms && failed.load_ms == load_ms,
        named.engine_version@.len() == 0 && named.engine_lang@.len() == 0
            && named.engine_class@.len() == 0,
        unbuilt.engine_version@.len() == 0 && unbuilt.engine_lang@.len() == 0
            && unbuilt.engine_class@.len() == 0,
        failed.engine_version@ == info.version@ && failed.engine_lang@ == info.lang@
            && failed.engine_class@ == class@,
{
}

/// What was measured stands in the result, each value in its own place, and what was
/// not is absent. The ids and the decoded text stand there as their hashes in words.
pub proof fn law_measurements_stand_in_their_places(
    name: &str,
    info: &Info,
    load_ms: Real,
    m: Measured,
    r: EngineResult,
    ids: String,
    text: String,
)
    requires
        call_ensures(measured_result, (name, info, load_ms, m), r),
        m.identity is Some ==> call_ensures(hex16_text, (m.identity->0.ids_hash,), ids),
        m.decoded is Some && m.decoded->0 is Ok ==> call_ensures(
            hex16_text,
            (m.decoded->0->Ok_0.text_hash,),
            text,
        ),
    ensures
        r.unsupported is None && r.verified is None && r.breakdown_nanoseconds is None,
        no_sizes(r) && r.decode_verified is None,
        m.identity is Some ==> r.total_tokens_produced == m.identity->0.tokens && r.ids_hash@
            == ids@,
        m.identity is None ==> r.total_tokens_produced == 0 && r.ids_hash@.len() == 0,
        m.timing is Some ==> r.mean_execution_time_seconds == m.timing->0.secs && r.mbps
            == m.timing->0.mbps && r.ns_per_byte == m.timing->0.ns_per_byte && r.reused_text
            == m.timing->0.reused,
        m.timing is None ==> r.mean_execution_time_seconds.bits == 0 && r.mbps.bits == 0
            && r.ns_per_byte.bits == 0 && !r.reused_text,
        m.decoded is Some && m.decoded->0 is Ok ==> {
            let d = m.decoded->0->Ok_0;
            &&& r.decode_mbps == Some(d.mbps)
            &&& r.decode_ns_per_token == Some(d.ns_per_token)
            &&& r.decode_text_hash is Some && r.decode_text_hash->0@ == text@
            &&& r.decode_unsupported is None
        },
        m.decoded is Some && m.decoded->0 is Err ==> no_decode(r) && r.decode_unsupported is Some
            && r.decode_unsupported->0@ == m.decoded->0->Err_0@,
        m.decoded is None ==> no_decode(r) && r.decode_unsupported is None,
        m.latency is Some ==> {
            let l = m.latency->0;
            &&& r.latency_p50_us == Some(l.p50_us)
            &&& r.latency_p99_us == Some(l.p99_us)
            &&& r.latency_samples == Some(l.samples)
            &&& r.latency_document_bytes == Some(l.document_bytes)
        },
        m.latency is None ==> no_latency(r),
        m.scaling@.len() > 0 ==> r.scaling is Some && r.scaling->0 == m.scaling,
        m.scaling@.len() == 0 ==> r.scaling is None,
        m.padding_unsupported@.len() > 0 ==> r.padding_unsupported is Some
            && r.padding_unsupported->0 == m.padding_unsupported,
        m.padding_unsupported@.len() == 0 ==> r.padding_unsupported is None,
{
}

/// A result says of its engine what the engine says of itself.
pub proof fn law_results_describe_their_engine(
    name: &str,
    info: &Info,
    load_ms: Real,
    m: Measured,
    r: EngineResult,
    class: &'static str,
)
    requires
        call_ensures(measured_result, (name, info, load_ms, m), r),
        call_ensures(crate::engine::Class::as_str, (info.class,), class),
    ensures
        r.tokenizer_name@ == name@,
        r.engine_version@ == info.version@ && r.engine_lang@ == info.lang@,
        r.engine_class@ == class@ && r.also_computes@ == info.also_computes@,
        r.internally_parallel == info.internally_parallel,
        r.load_ms == load_ms,
{
}

/// Whether a time is the first that a list has under a name, or zero where it has
/// none.
pub open spec fn is_time_of(phases: Seq<(String, u64)>, name: Seq<char>, nanos: u64) -> bool {
    ||| exists|k: int|
        0 <= k < phases.len() && (#[trigger] phases[k]).0@ == name && phases[k].1 == nanos
            && forall|i: int| 0 <= i < k ==> (#[trigger] phases[i]).0@ != name
    ||| nanos == 0 && forall|i: int| 0 <= i < phases.len() ==> (#[trigger] phases[i]).0@ != name
}

proof fn lemma_phase(phases: Seq<(String, u64)>, name: Seq<char>)
    ensures
        is_time_of(phases, name, phase(phases, name)),
    decreases phases.len(),
{
    if phases.len() > 0 {
        let rest = phases.drop_first();
        if phases[0].0@ != name {
            lemma_phase(rest, name);
            if exists|k: int|
                0 <= k < rest.len() && (#[trigger] rest[k]).0@ == name && rest[k].1 == phase(
                    rest,
                    name,
                ) && forall|i: int| 0 <= i < k ==> (#[trigger] rest[i]).0@ != name {
                let k = choose|k: int|
                    0 <= k < rest.len() && (#[trigger] rest[k]).0@ == name && rest[k].1 == phase(
                        rest,
                        name,
                    ) && forall|i: int| 0 <= i < k ==> (#[trigger] rest[i]).0@ != name;
                assert(phases[k + 1] == rest[k]);
                assert forall|i: int| 0 <= i < k + 1 implies (#[trigger] phases[i]).0@ != name by {
                    if i > 0 {
                        assert(rest[i - 1] == phases[i]);
                    }
                }
            } else {
                assert forall|i: int| 0 <= i < phases.len() implies (#[trigger] phases[i]).0@
                    != name by {
                    if i > 0 {
                        assert(rest[i - 1] == phases[i]);
                    }
                }
            }
        } else {
            assert(phases[0].0@ == name && phases[0].1 == phase(phases, name));
        }
    }
}

/// What a script reports of its run stands in the result, each value in its own
/// place; of its phases each has the time reported under its own name. Of what a
/// script is never put through, nothing is said.
pub proof fn law_scripted_reports_stand_in_their_places(
    name: &str,
    report: ScriptedReport,
    mbps: Real,
    ns_per_byte: Real,
    r: EngineResult,
    ids: String,
)
    requires
        call_ensures(scripted_result, (name, report, mbps, ns_per_byte), r),
        report.unsupported is None,
        call_ensures(hex16_text, (report.ids_hash,), ids),
    ensures
        r.tokenizer_name@ == name@ && r.engine_class@ == "subprocess"@,
        r.engine_version@ == report.version@ && r.engine_lang@ == report.lang@,
        r.also_computes@ == report.also_computes@,
        r.internally_parallel == report.internally_parallel,
        r.load_ms == report.load_ms && r.mean_execution_time_seconds == report.secs,
        r.total_tokens_produced == report.tokens && r.ids_hash@ == ids@,
        r.mbps == mbps && r.ns_per_byte == ns_per_byte,
        r.breakdown_nanoseconds is Some <==> report.phases is Some,
        report.phases is Some ==> {
            let b = r.breakdown_nanoseconds->0;
            let list = report.phases->0@;
            &&& is_time_of(list, "normalization"@, b.normalization)
            &&& is_time_of(list, "pre_tokenization"@, b.pre_tokenization)
            &&& is_time_of(list, "core_encoding"@, b.core_encoding)
            &&& is_time_of(list, "post_processing"@, b.post_processing)
        },
        r.unsupported is None && r.verified is None && !r.reused_text,
        no_decode(r) && r.decode_unsupported is None && no_latency(r) && no_sizes(r),
        r.scaling is None && r.padding_unsupported is None,
{
    if let Some(list) = report.phases {
        lemma_phase(list@, "normalization"@);
        lemma_phase(list@, "pre_tokenization"@);
        lemma_phase(list@, "core_encoding"@);
        lemma_phase(list@, "post_processing"@);
    }
}

/// A script that gave up has its reason in the result and nothing measured, whatever
/// numbers it reports.
pub proof fn law_scripts_that_give_up_claim_nothing(
    name: &str,
    report: ScriptedReport,
    mbps: Real,
    ns_per_byte: Real,
    r: EngineResult,
)
    requires
        call_ensures(scripted_result, (name, report, mbps, ns_per_byte), r),
        report.unsupported is Some,
    ensures
        nothing_measured(r),
        r.unsupported is Some && r.unsupported->0@ == report.unsupported->0@,
        r.tokenizer_name@ == name@ && r.engine_class@ == "subprocess"@,
        r.engine_version@ == report.version@ && r.engine_lang@ == report.lang@,
        r.load_ms == report.load_ms,
{
}

proof fn lemma_first_place<T>(list: Seq<(String, T)>, name: Seq<char>)
    ensures
        place_of(list, name) is None <==> forall|i: int|
            0 <= i < list.len() ==> (#[trigger] list[i]).0@ != name,
        place_of(list, name) is Some ==> 0 <= place_of(list, name)->0 < list.len()
            && list[place_of(list, name)->0].0@ == name && forall|i: int|
            0 <= i < place_of(list, name)->0 ==> (#[trigger] list[i]).0@ != name,
    decreases list.len(),
{
    if list.len() > 0 {
        let less = list.drop_last();
        lemma_first_place(less, name);
        if place_of(less, name) is Some {
            let p = place_of(less, name)->0;
            assert(list[p] == less[p]);
            assert forall|i: int| 0 <= i < p implies (#[trigger] list[i]).0@ != name by {
                assert(less[i] == list[i]);
            }
        } else {
            assert forall|i: int| 0 <= i < less.len() implies (#[trigger] list[i]).0@ != name by {
                assert(less[i] == list[i]);
            }
            if list.last().0@ == name {
                assert(list[list.len() - 1].0@ == name);
            }
        }
    }
}

/// A name is found at the first place where it stands, and nowhere only where it does
/// not stand at all.
pub proof fn law_places_are_first<T>(list: &Vec<(String, T)>, name: &str, r: Option<usize>)
    requires
        call_ensures(find_place::<T>, (list, name), r),
    ensures
        r is None <==> forall|i: int| 0 <= i < list@.len() ==> (#[trigger] list@[i]).0@ != name@,
        r is Some ==> r->0 < list@.len() && list@[r->0 as int].0@ == name@ && forall|i: int|
            0 <= i < r->0 ==> (#[trigger] list@[i]).0@ != name@,
{
    lemma_first_place(list@, name@);
}

/// A package is referred to by its version, and its registry stands behind it in
/// brackets; without a version there is nothing to refer to.
pub proof fn law_packages_are_referred_to_by_version(p: &PackageSize, r: Option<String>)
    requires
        call_ensures(package_ref, (p,), r),
    ensures
        r is Some <==> p.version is Some,
        r is Some && p.registry is None ==> r->0@ == p.version->0@,
        r is Some && p.registry is Some ==> r->0@ == p.version->0@ + " ("@ + p.registry->0@ + ")"@,
{
}

/// A result has the sizes that stand under its own name, the first of several. Where
/// the binaries do not know the name there is no such size, and where the packages do
/// not, what was there stays. Nothing else of a result changes.
pub proof fn law_sizes_go_by_name(
    before: Vec<EngineResult>,
    after: Vec<EngineResult>,
    binaries: &Vec<(String, Real)>,
    packages: &Vec<(String, PackageSize)>,
    i: int,
    b: Option<usize>,
    p: Option<usize>,
    reference: Option<String>,
    name: &str,
)
    requires
        exists|v: &mut Vec<EngineResult>|
            *v == before && *final(v) == after && #[trigger] call_ensures(
                attach_sizes,
                (v, binaries, packages),
                (),
            ),
        0 <= i < before@.len(),
        name@ == before@[i].tokenizer_name@,
        call_ensures(find_place::<Real>, (binaries, name), b),
        call_ensures(find_place::<PackageSize>, (packages, name), p),
        p is Some ==> call_ensures(package_ref, (&packages@[p->0 as int].1,), reference),
    ensures
        after@.len() == before@.len(),
        b is Some ==> after@[i].binary_delta_kb == Some(binaries@[b->0 as int].1),
        b is None ==> after@[i].binary_delta_kb is None,
        p is Some ==> after@[i].crate_size_kb == packages@[p->0 as int].1.kb,
        p is Some ==> (after@[i].package_ref is Some <==> reference is Some),
        p is Some && reference is Some ==> after@[i].package_ref->0@ == reference->0@,
        p is None ==> after@[i].crate_size_kb == before@[i].crate_size_kb && after@[i].package_ref
            == before@[i].package_ref,
        after@[i] == (EngineResult {
            binary_delta_kb: after@[i].binary_delta_kb,
            crate_size_kb: after@[i].crate_size_kb,
            package_ref: after@[i].package_ref,
            ..before@[i]
        }),
{
    assert(sized(before@[i], after@[i], binaries@, packages@));
}

/// A footprint fills in its own numbers as they are, and replaces of the engine's
/// description what it knows and no more. What was measured stays as it was.
pub proof fn law_footprint_fills_in(before: EngineResult, after: EngineResult, m: Footprint)
    requires
        exists|r: &mut EngineResult|
            *r == before && *final(r) == after && #[trigger] call_ensures(
                apply_footprint,
                (r, m),
                (),
            ),
    ensures
        after.heap_load_mb == m.heap_load_mb && after.heap_encode_mb == m.heap_encode_mb,
        after.memory_threads == m.memory_threads,
        after.memory_parallelism == m.memory_parallelism,
        m.engine_version is Some ==> after.engine_version == m.engine_version->0,
        m.engine_version is None ==> after.engine_version == before.engine_version,
        m.engine_lang is Some ==> after.engine_lang == m.engine_lang->0,
        m.engine_lang is None ==> after.engine_lang == before.engine_lang,
        m.engine_class is Some ==> after.engine_class == m.engine_class->0,
        m.engine_class is None ==> after.engine_class == before.engine_class,
        m.also_computes is Some ==> after.also_computes == m.also_computes->0,
        m.also_computes is None ==> after.also_computes == before.also_computes,
        m.internally_parallel is Some ==> after.internally_parallel == m.internally_parallel->0,
        m.internally_parallel is None ==> after.internally_parallel == before.internally_parallel,
        m.unsupported is Some ==> after.unsupported == m.unsupported,
        m.unsupported is None ==> after.unsupported == before.unsupported,
        before == (EngineResult {
            heap_load_mb: before.heap_load_mb,
            heap_encode_mb: before.heap_encode_mb,
            memory_threads: before.memory_threads,
            memory_parallelism: before.memory_parallelism,
            engine_version: before.engine_version,
            engine_lang: before.engine_lang,
            engine_class: before.engine_class,
            also_computes: before.also_computes,
            internally_parallel: before.internally_parallel,
            unsupported: before.unsupported,
            ..after
        }),
{
}

}
