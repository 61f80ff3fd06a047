use std::collections::HashMap;
use std::sync::atomic::{AtomicUsize, Ordering};
use std::sync::{Arc, Mutex};
use std::time::Instant;

use tokbench::chunk::chunk;
use tokbench::engine::{
    join_path, unsupported, Build, Class, Engine, Ids, Info, Model, Padding, Unsupported,
};
use tokbench::hash::{ids_hash, text_hash};
use tokbench::measure::{
    has_timed_text, latency_summary, measure, measure_decode, measure_latency, reference_ids,
    settle_probe, DecodeMeasure, Measure,
};
use tokbench::recurrence::{synth_recurrence, vocabulary};
use tokbench::scaling::{
    encode_claimed, measure_scaling, measure_scaling_with_mode, plan, points, prepare_instances,
    probe, settable_widths, time_native_batch, Plan, ScalingKind, ScalingMode, ThreadPoint,
};
use tokbench::stats::{median, percentile, Middle, Sample};

fn info(name: &'static str, internally_parallel: bool) -> Info {
    Info {
        name,
        version: "0",
        lang: "rust",
        class: Class::Native,
        url: "",
        also_computes: "",
        internally_parallel,
    }
}

struct Bytes;
impl Engine for Bytes {
    fn info(&self) -> Info {
        info("bytes", false)
    }
    fn encode(&mut self, text: &str, out: &mut Ids) {
        out.extend(text.as_bytes().iter().map(|&b| b as u32));
    }
    fn decode(&mut self, ids: &[u32], out: &mut String) -> Result<(), Unsupported> {
        let bytes: Vec<u8> = ids.iter().map(|&i| i as u8).collect();
        match String::from_utf8(bytes) {
            Ok(s) => {
                out.push_str(&s);
                Ok(())
            }
            Err(e) => unsupported(&format!("not utf-8: {e}")),
        }
    }
}

struct EncodeOnly;
impl Engine for EncodeOnly {
    fn info(&self) -> Info {
        Bytes.info()
    }
    fn encode(&mut self, text: &str, out: &mut Ids) {
        Bytes.encode(text, out)
    }
}

fn secs_per_byte(s: Sample) -> f64 {
    s.nanos as f64 / 1e9 / s.bytes as f64
}

fn mbps(m: &Measure) -> f64 {
    let pace = match m.pace {
        Middle::One(s) => secs_per_byte(s),
        Middle::Two(a, b) => (secs_per_byte(a) + secs_per_byte(b)) / 2.0,
    };
    let secs = pace * m.bytes as f64;
    (m.bytes as f64 / (1024.0 * 1024.0)) / secs
}

fn secs(pace: Middle<u64>) -> f64 {
    match pace {
        Middle::One(n) => n as f64 / 1e9,
        Middle::Two(a, b) => (a as f64 + b as f64) / 2e9,
    }
}

fn decode_mbps(d: &DecodeMeasure) -> f64 {
    (d.bytes as f64 / (1024.0 * 1024.0)) / secs(d.pace)
}

fn ns_per_token(d: &DecodeMeasure) -> f64 {
    secs(d.pace) * 1e9 / d.tokens as f64
}

fn point_mbps(p: &ThreadPoint) -> f64 {
    (p.bytes as f64 / (1024.0 * 1024.0)) / secs(p.pace)
}

fn efficiency_pct(p: &ThreadPoint) -> f64 {
    match p.base {
        Some(base) => {
            let ideal = (p.bytes as f64 / (1024.0 * 1024.0)) / secs(base) * p.threads as f64;
            if ideal > 0.0 {
                point_mbps(p) / ideal * 100.0
            } else {
                0.0
            }
        }
        None => 0.0,
    }
}

/// Hands every document to one of the instances, in turn.
fn in_turn<E: Engine>(mut engines: Vec<E>, batch: &[&str]) -> u64 {
    let n = engines.len();
    let mut out = Ids::new();
    let started = Instant::now();
    for (i, text) in batch.iter().enumerate() {
        out.clear();
        engines[i % n].encode(text, &mut out);
    }
    (started.elapsed().as_nanos() as u64).max(1)
}

#[test]
fn harness_counts_and_verifies() {
    let text = "hello world, ".repeat(500);
    let chunks = chunk(&text, 1024, 100);
    assert!(chunks.len() > 1, "corpus should split into several chunks");
    assert_eq!(
        chunks.iter().map(|c| c.len()).sum::<usize>(),
        text.len(),
        "chunking must not drop or duplicate bytes"
    );

    let m = measure(&mut Bytes, &chunks, 3, true);
    assert!(m.bytes > 0 && m.bytes <= text.len());
    assert_eq!(m.tokens, text.len(), "one id per byte, whole corpus");
    assert!(mbps(&m) > 0.0 && mbps(&m).is_finite());

    let again = measure(&mut Bytes, &chunks, 1, true);
    assert_eq!(m.ids_hash, again.ids_hash);
    assert_ne!(ids_hash(&[1, 2, 3]), ids_hash(&[3, 2, 1]));
}

#[test]
fn decode_harness_measures_and_verifies() {
    let text = "hello world, ".repeat(500);
    let chunks = chunk(&text, 1024, 100);

    let id_chunks: Vec<Ids> = chunks
        .iter()
        .map(|c| {
            let mut ids = Ids::new();
            Bytes.encode(c, &mut ids);
            ids
        })
        .collect();

    let d = measure_decode(&mut Bytes, &id_chunks, 3).expect("Bytes decodes");
    assert_eq!(d.bytes, text.len(), "round trip must reproduce every byte");
    assert_eq!(d.tokens, text.len(), "one id per byte");
    assert!(decode_mbps(&d) > 0.0 && decode_mbps(&d).is_finite());
    assert!(ns_per_token(&d) > 0.0 && ns_per_token(&d).is_finite());
    assert_eq!(d.text_hash, text_hash(&text), "hash of the decoded text");

    assert!(measure_decode(&mut EncodeOnly, &id_chunks, 1).is_err());

    assert_ne!(text_hash("abc"), text_hash("acb"));
}

#[test]
fn latency_harness_measures_each_distinct_document_once() {
    let documents: Vec<String> = (0..101)
        .map(|index| format!("document {index:03} with distinct text"))
        .collect();
    let measured = measure_latency(&mut Bytes, &documents, 512)
        .expect("one warm-up document and 100 samples");
    assert_eq!(measured.samples, 100);
    assert_eq!(measured.document_bytes, 512);
    assert!(measured.p50_nanos as f64 / 1e3 > 0.0);
    assert!(measured.p99_nanos >= measured.p50_nanos);
}

struct Recording {
    seen: Arc<Mutex<HashMap<String, usize>>>,
}
impl Engine for Recording {
    fn info(&self) -> Info {
        info("recording", false)
    }
    fn encode(&mut self, text: &str, out: &mut Ids) {
        *self.seen.lock().unwrap().entry(text.to_string()).or_insert(0) += 1;
        out.push(text.len() as u32);
    }
}

#[test]
fn timed_passes_never_replay_a_document() {
    // 24 distinct chunks, 5 reps -> 6 slices of 4 chunks each.
    let text: String = (0..24)
        .map(|i| format!("{:-<1024}", format!("doc{i} ")))
        .collect();
    let chunks = chunk(&text, 1024, 100);
    assert!(chunks.len() >= 24);

    let seen = Arc::new(Mutex::new(HashMap::new()));
    let m = measure(&mut Recording { seen: seen.clone() }, &chunks, 5, true);
    assert!(!m.reused, "24 chunks is enough for 5 reps + warm-up");

    let seen = seen.lock().unwrap();
    let worst = seen.values().copied().max().unwrap_or(0);
    assert!(
        worst <= 2,
        "a chunk was encoded {worst} times; timed slices must be disjoint \
         (at most one timed/warm touch plus one verification touch)"
    );
    assert_eq!(
        seen.len(),
        chunks.len(),
        "verification must still cover the whole corpus"
    );
}

struct Counting {
    seen: Arc<AtomicUsize>,
}
impl Engine for Counting {
    fn info(&self) -> Info {
        info("counting", false)
    }
    fn encode(&mut self, text: &str, out: &mut Ids) {
        self.seen.fetch_add(text.len(), Ordering::Relaxed);
        out.push(text.len() as u32);
    }
}

#[test]
fn scaling_covers_every_document_exactly_once() {
    let text = "lorem ipsum dolor sit amet ".repeat(400);
    let chunks = chunk(&text, 512, 100);
    let total: usize = chunks.iter().map(|c| c.len()).sum();
    let counts = vec![1usize, 2, 4];
    let reps = 1;

    let seen = Arc::new(AtomicUsize::new(0));
    let made = Arc::new(AtomicUsize::new(0));
    let m = made.clone();
    let s = seen.clone();
    let make = move || -> Option<Box<dyn Engine>> {
        m.fetch_add(1, Ordering::Relaxed);
        Some(Box::new(Counting { seen: s.clone() }))
    };

    let scaling =
        measure_scaling(&make, &in_turn, &chunks, &counts, reps, Padding::Off).unwrap();
    assert_eq!(
        scaling.kind,
        ScalingKind::IndependentInstances,
        "an engine that refuses set_threads has to be threaded by the harness"
    );
    let pts = scaling.points;
    assert_eq!(pts.len(), counts.len());

    let warm_bytes: usize = chunks
        .iter()
        .enumerate()
        .filter(|(index, _)| index % 6 == 0)
        .map(|(_, chunk)| chunk.len())
        .sum();
    let measured_bytes = total - warm_bytes;
    let engines_per_rep: usize = counts.iter().sum();
    let expected = (warm_bytes * engines_per_rep + measured_bytes * counts.len()) * reps;
    assert_eq!(
        seen.load(Ordering::Relaxed),
        expected,
        "every document must be encoded exactly once per timed pass"
    );
    assert_eq!(
        made.load(Ordering::Relaxed),
        engines_per_rep * reps + 1 + counts.len(),
        "one engine per thread and repetition, plus the capability probes"
    );

    assert!((efficiency_pct(&pts[0]) - 100.0).abs() < 1e-6);
    for p in &pts {
        assert!(point_mbps(p) > 0.0 && point_mbps(p).is_finite());
    }
}

#[test]
fn scaling_can_be_measured_in_reverse_but_is_reported_in_order() {
    let chunks = vec![
        "synthetic unit-test warm-up chunk".repeat(100),
        "synthetic unit-test measured chunk".repeat(100),
    ];
    let make = || Some(Box::new(Bytes) as Box<dyn Engine>);
    let pts = measure_scaling(&make, &in_turn, &chunks, &[4, 2, 1], 1, Padding::Off)
        .unwrap()
        .points;

    assert_eq!(
        pts.iter().map(|point| point.threads).collect::<Vec<_>>(),
        vec![1, 2, 4]
    );
    assert!((efficiency_pct(&pts[0]) - 100.0).abs() < 1e-6);
}

struct Pooled {
    threads: Arc<AtomicUsize>,
    batches: Arc<AtomicUsize>,
}
impl Engine for Pooled {
    fn info(&self) -> Info {
        info("pooled", true)
    }
    fn encode(&mut self, text: &str, out: &mut Ids) {
        out.extend(text.as_bytes().iter().map(|&b| b as u32));
    }
    fn set_threads(&mut self, threads: usize) -> bool {
        self.threads.store(threads, Ordering::Relaxed);
        true
    }
    fn encode_batch(&mut self, texts: &[&str], out: &mut Ids) {
        self.batches.fetch_add(1, Ordering::Relaxed);
        for text in texts {
            self.encode(text, out);
        }
    }
}

#[test]
fn scaling_uses_the_engines_own_parallelism_when_it_has_any() {
    let chunks = vec![
        "warm chunk for the pooled engine".repeat(100),
        "measured chunk for the pooled engine".repeat(100),
        "another measured chunk for the pooled engine".repeat(100),
    ];
    let seen_threads = Arc::new(AtomicUsize::new(0));
    let made = Arc::new(AtomicUsize::new(0));
    let batches = Arc::new(AtomicUsize::new(0));
    let (t, m, b) = (seen_threads.clone(), made.clone(), batches.clone());
    let make = move || -> Option<Box<dyn Engine>> {
        m.fetch_add(1, Ordering::Relaxed);
        Some(Box::new(Pooled { threads: t.clone(), batches: b.clone() }))
    };

    // 1, 2, 8 rather than 1, 2, 4: native-thread mode builds
    // `1 + 2 * counts.len()` engines, and with 1, 2, 4 that happens to
    // equal `1 + 2 + 4`.
    let counts = [1usize, 2, 8];
    let scaling = measure_scaling(&make, &in_turn, &chunks, &counts, 1, Padding::Off).unwrap();

    assert_eq!(
        scaling.kind,
        ScalingKind::NativeThreads,
        "an engine answering set_threads must be measured through its own pool"
    );
    assert_eq!(scaling.points.len(), counts.len());
    assert_eq!(
        seen_threads.load(Ordering::Relaxed),
        8,
        "the last thread count must have reached the engine"
    );
    assert_eq!(
        made.load(Ordering::Relaxed),
        1 + 2 * counts.len(),
        "native-thread mode builds one engine per point, plus probes"
    );
    // Two batch calls per point: one warm, one timed.
    assert_eq!(batches.load(Ordering::Relaxed), counts.len() * 2);
    assert!((efficiency_pct(&scaling.points[0]) - 100.0).abs() < 1e-6);

    batches.store(0, Ordering::Relaxed);
    let independent = measure_scaling_with_mode(
        &make,
        &in_turn,
        &chunks,
        &counts,
        1,
        Padding::Off,
        ScalingMode::IndependentInstances,
    )
    .unwrap();
    assert_eq!(independent.kind, ScalingKind::IndependentInstances,);
    assert_eq!(independent.points.len(), counts.len());
    assert_eq!(
        batches.load(Ordering::Relaxed),
        0,
        "independent instances must use the single-document entry point"
    );
}

struct FixedWidth {
    singles: Arc<AtomicUsize>,
    batches: Arc<AtomicUsize>,
}
impl Engine for FixedWidth {
    fn info(&self) -> Info {
        info("fixed-width", true)
    }
    fn encode(&mut self, text: &str, out: &mut Ids) {
        self.singles.fetch_add(1, Ordering::Relaxed);
        out.extend(text.as_bytes().iter().map(|&b| b as u32));
    }
    fn has_native_batch(&self) -> bool {
        true
    }
    fn set_threads(&mut self, _threads: usize) -> bool {
        false
    }
    fn encode_batch(&mut self, texts: &[&str], out: &mut Ids) {
        self.batches.fetch_add(1, Ordering::Relaxed);
        for text in texts {
            out.extend(text.as_bytes().iter().map(|&b| b as u32));
        }
    }
}

#[test]
fn an_uncontrollable_native_batch_is_never_threaded_by_the_harness() {
    let chunks = vec![
        "warm".repeat(50),
        "measured one".repeat(50),
        "measured two".repeat(50),
    ];
    let singles = Arc::new(AtomicUsize::new(0));
    let batches = Arc::new(AtomicUsize::new(0));
    let (s, b) = (singles.clone(), batches.clone());
    let make = move || {
        Some(Box::new(FixedWidth { singles: s.clone(), batches: b.clone() }) as Box<dyn Engine>)
    };

    let scaling = measure_scaling(&make, &in_turn, &chunks, &[1, 2, 4], 1, Padding::Off).unwrap();

    assert_eq!(
        scaling.kind,
        ScalingKind::NativeThreads,
        "a native batch must use native threads, never unpinned independent instances"
    );
    assert_eq!(scaling.points.len(), 1);
    assert_eq!(scaling.points[0].threads, 0);
    assert_eq!(
        efficiency_pct(&scaling.points[0]),
        0.0,
        "no 1-thread baseline exists, so efficiency must not be invented"
    );
    assert!(point_mbps(&scaling.points[0]) > 0.0);
    assert_eq!(batches.load(Ordering::Relaxed), 2);
    assert_eq!(
        singles.load(Ordering::Relaxed),
        0,
        "the harness must not fall back to per-document encode"
    );

    let independent = measure_scaling_with_mode(
        &make,
        &in_turn,
        &chunks,
        &[1, 2, 4],
        1,
        Padding::Off,
        ScalingMode::IndependentInstances,
    )
    .unwrap();
    assert!(
        independent.points.is_empty(),
        "a fixed-width native pool cannot honestly run as single-threaded instances"
    );
}

#[test]
fn padded_cells_do_not_exist_for_engines_that_cannot_pad() {
    let chunks = vec![
        "warm chunk".repeat(50),
        "measured chunk".repeat(50),
        "another measured chunk".repeat(50),
    ];
    let make = || Some(Box::new(Bytes) as Box<dyn Engine>);

    assert!(
        measure_scaling(&make, &in_turn, &chunks, &[1, 2], 1, Padding::Off).is_some(),
        "ragged output is always available"
    );
    assert!(
        measure_scaling(&make, &in_turn, &chunks, &[1, 2], 1, Padding::Longest).is_none(),
        "an engine that cannot pad must report no padded result"
    );
}

/// Sizes the sample for a rate of repetition and draws the text from it.
fn synth_at_rate(vocab: &[String], rate: f64, bytes: usize, seed: u64) -> (String, f64) {
    let avg = vocab.iter().map(|w| w.len() + 1).sum::<usize>() as f64 / vocab.len() as f64;
    let want_words = ((bytes as f64 / avg).ceil() as usize).max(1);
    let want = (((want_words as f64 / rate.max(1.0)).ceil() as usize).max(1)).min(vocab.len());
    let (text, words, distinct) = synth_recurrence(vocab, want, bytes, seed);
    (text, words as f64 / distinct.max(1) as f64)
}

#[test]
fn synthetic_recurrence_varies_only_repetition() {
    let corpus: String = (0..4000)
        .map(|i| format!("w{i:04}{} ", "x".repeat(i % 9)))
        .collect();
    let vocab = vocabulary(&corpus);
    assert!(vocab.len() >= 4000);

    let mut lengths = Vec::new();
    for rate in [2.0, 8.0, 64.0] {
        let (text, got) = synth_at_rate(&vocab, rate, 120_000, 7);
        assert!(text.len() <= 120_000);
        assert!(std::str::from_utf8(text.as_bytes()).is_ok());
        assert!(
            got >= rate * 0.5 && got <= rate * 2.0,
            "asked {rate}x, achieved {got}x"
        );
        let words: Vec<&str> = text.split_whitespace().collect();
        lengths.push(words.iter().map(|w| w.len()).sum::<usize>() as f64 / words.len() as f64);
    }
    let (lo, hi) = (
        lengths.iter().cloned().fold(f64::MAX, f64::min),
        lengths.iter().cloned().fold(0.0, f64::max),
    );
    assert!(
        hi / lo < 1.15,
        "mean word length moved {lo:.2} -> {hi:.2} across the sweep; \
         the sweep is varying more than repetition"
    );
}

#[test]
fn recurrence_floor_is_reported_not_invented() {
    let vocab = vocabulary("alpha beta gamma delta");
    let (text, got) = synth_at_rate(&vocab, 1.0, 10_000, 3);
    assert!(got > 100.0, "4 distinct words cannot give 1x, got {got}x");
    for w in text.split_whitespace() {
        assert!(vocab.iter().any(|v| v == w), "invented token {w:?}");
    }
}

#[test]
fn chunks_respect_char_boundaries() {
    let text = "日本語のテキストです。".repeat(200);
    for c in chunk(&text, 100, 50) {
        assert!(std::str::from_utf8(c.as_bytes()).is_ok());
    }
}

// ---------------------------------------------------------------------------

#[test]
fn chunks_reach_their_size_and_end_between_characters() {
    assert_eq!(chunk("abcdefg", 3, 10), ["abc", "def", "g"]);
    assert_eq!(chunk("abcdefg", 3, 2), ["abc", "def"]);
    assert_eq!(chunk("aéb", 2, 10), ["aé", "b"]);
    assert_eq!(chunk("ab", 0, 3), ["", "", ""]);
    assert!(chunk("", 3, 10).is_empty());
    assert!(chunk("abc", 3, 0).is_empty());
    assert_eq!(chunk("abc", usize::MAX, usize::MAX), ["abc"]);
}

#[test]
fn hashes_are_the_known_ones() {
    assert_eq!(text_hash(""), 0xcbf2_9ce4_8422_2325);
    assert_eq!(text_hash("a"), 0xaf63_dc4c_8601_ec8c);
    assert_eq!(text_hash("foobar"), 0x8594_4171_f739_67e8);
    assert_eq!(ids_hash(&[]), 0xcbf2_9ce4_8422_2325);
    assert_eq!(ids_hash(&[u32::from_le_bytes(*b"abcd")]), text_hash("abcd"));
    assert_ne!(text_hash("abc"), text_hash("abd"));
}

#[test]
fn medians_and_percentiles_go_by_rank() {
    assert_eq!(median(&[3u64, 1, 2]), Middle::One(2));
    assert_eq!(median(&[4u64, 1, 3, 2]), Middle::Two(2, 3));
    let half = Sample { nanos: 1, bytes: 2 };
    let third = Sample { nanos: 1, bytes: 3 };
    let whole = Sample { nanos: 5, bytes: 5 };
    assert_eq!(median(&[whole, third, half]), Middle::One(half));
    let hundred: Vec<u64> = (1..=100).rev().collect();
    assert_eq!(percentile(&hundred, 50), 50);
    assert_eq!(percentile(&hundred, 99), 99);
    assert_eq!(percentile(&[7], 50), 7);
    let m = latency_summary(&hundred, 64);
    assert_eq!((m.p50_nanos, m.p99_nanos, m.samples, m.document_bytes), (50, 99, 100, 64));
}

#[test]
fn a_cold_pass_times_everything_once() {
    let chunks = chunk("one two three four ", 4, 100);
    let seen = Arc::new(Mutex::new(HashMap::new()));
    let m = measure(&mut Recording { seen: seen.clone() }, &chunks, 7, false);
    assert_eq!(m.bytes, "one two three four ".len());
    assert!(!m.reused);
    assert!(seen.lock().unwrap().values().all(|&n| n == 2));
    assert_eq!(m.tokens, chunks.len());
}

#[test]
fn too_little_text_is_flagged_and_not_replayed_in_silence() {
    let chunks: Vec<String> = vec!["alpha".into(), "beta".into()];
    assert!(has_timed_text(&chunks, 5));
    let m = measure(&mut Bytes, &chunks, 5, true);
    assert!(m.reused);
    assert!(!has_timed_text(&[], 5));
    assert!(!has_timed_text(&[String::new()], 5));
}

#[test]
fn latency_needs_two_documents_and_a_size() {
    assert!(measure_latency(&mut Bytes, &["a".to_string()], 8).is_none());
    assert!(measure_latency(&mut Bytes, &["a".to_string(), "b".to_string()], 0).is_none());
}

#[test]
fn decoding_says_why_it_cannot() {
    let none = measure_decode(&mut Bytes, &[vec![]], 3).unwrap_err();
    assert_eq!(none.message(), "no reference ids to decode");
    let refused = measure_decode(&mut EncodeOnly, &[vec![65]], 3).unwrap_err();
    assert_eq!(refused.message(), "library exposes no decode entry point");
    struct Silent;
    impl Engine for Silent {
        fn info(&self) -> Info {
            Bytes.info()
        }
        fn encode(&mut self, _text: &str, _out: &mut Ids) {}
        fn decode(&mut self, _ids: &[u32], _out: &mut String) -> Result<(), Unsupported> {
            Ok(())
        }
    }
    let silent = measure_decode(&mut Silent, &[vec![65]], 3).unwrap_err();
    assert_eq!(silent.message(), "decode produced no text");
}

#[test]
fn reference_ids_are_kept_per_document() {
    let ids = reference_ids(&mut Bytes, &["ab".to_string(), "c".to_string()]);
    assert_eq!(ids, [vec![97, 98], vec![99]]);
}

#[test]
fn engines_that_offer_nothing_say_so() {
    struct Plain;
    impl Build for Plain {
        fn build(_model: &Model) -> Result<Box<dyn Engine>, Unsupported> {
            Ok(Box::new(Bytes))
        }
    }
    let model = Model { name: "m".into(), dir: "models/m".into() };
    assert!(Plain::build_with_cache_capacity(&model, None).is_ok());
    let e = Plain::build_with_cache_capacity(&model, Some(1)).err().unwrap();
    assert_eq!(e.message(), "this library exposes no configurable cache capacity");
    let e = Plain::build_without_cache(&model).err().unwrap();
    assert_eq!(e.message(), "this library exposes no way to disable its caches");
    let e = Plain::build_without_cache_with_capacity(&model, None).err().unwrap();
    assert_eq!(e.message(), "this library exposes no way to disable its caches");
    let e = Plain::build_without_cache_with_capacity(&model, Some(1)).err().unwrap();
    assert_eq!(
        e.message(),
        "an explicit cache capacity cannot be applied to a no-cache engine"
    );
    assert!(!Bytes.set_threads(1));
    assert!(!Bytes.has_native_batch());
    assert!(Bytes.set_padding(Padding::Off));
    assert!(!Bytes.set_padding(Padding::Longest));
    let mut out = Ids::new();
    Bytes.encode_batch(&["ab", "c"], &mut out);
    assert_eq!(out, [97, 98, 99]);
}

#[test]
fn paths_join_as_the_system_joins_them() {
    for (dir, file) in [("a/b", "c"), ("a/", "c"), ("", "c"), ("a", "/c"), ("/", "c"), ("a", "")] {
        let want = std::path::Path::new(dir).join(file);
        assert_eq!(join_path(dir, file), want.to_str().unwrap(), "{dir} {file}");
    }
    let model = Model { name: "m".into(), dir: "models/m".into() };
    assert_eq!(model.tokenizer_json(), "models/m/tokenizer.json");
    assert_eq!(model.artifact("x.bin", true).as_deref(), Some("models/m/x.bin"));
    assert_eq!(model.artifact("x.bin", false), None);
}

#[test]
fn labels_are_the_reported_ones() {
    assert_eq!(Class::Native.as_str(), "native");
    assert_eq!(Class::Cffi.as_str(), "cffi");
    assert_eq!(Padding::Off.as_str(), "off");
    assert_eq!(Padding::Longest.as_str(), "longest");
    assert_eq!(ScalingKind::NativeThreads.as_str(), "native-threads");
    assert_eq!(ScalingKind::IndependentInstances.as_str(), "independent-instances");
    assert_eq!(ScalingMode::default(), ScalingMode::Auto);
}

#[test]
fn a_plan_follows_the_engines_answers() {
    let counts = [1usize, 2];
    assert!(matches!(
        plan(ScalingMode::Auto, false, vec![1], true, &counts, Padding::Off),
        Plan::NoCell
    ));
    assert!(matches!(
        plan(ScalingMode::Auto, true, vec![2], false, &counts, Padding::Longest),
        Plan::Run { kind: ScalingKind::NativeThreads, widths, pin: false } if widths == [2]
    ));
    assert!(matches!(
        plan(ScalingMode::Auto, true, vec![], true, &counts, Padding::Longest),
        Plan::Run { kind: ScalingKind::NativeThreads, widths, pin: false } if widths == [0]
    ));
    assert!(matches!(
        plan(ScalingMode::Auto, true, vec![], false, &counts, Padding::Longest),
        Plan::NoCell
    ));
    assert!(matches!(
        plan(ScalingMode::NativeThreads, true, vec![], false, &counts, Padding::Off),
        Plan::Empty { kind: ScalingKind::NativeThreads }
    ));
    assert!(matches!(
        plan(ScalingMode::IndependentInstances, true, vec![2], true, &counts, Padding::Off),
        Plan::Empty { kind: ScalingKind::IndependentInstances }
    ));
    assert!(matches!(
        plan(ScalingMode::IndependentInstances, true, vec![1], true, &counts, Padding::Off),
        Plan::Run { kind: ScalingKind::IndependentInstances, widths, pin: true } if widths == [1, 2]
    ));
    assert!(matches!(
        plan(ScalingMode::Auto, true, vec![], false, &[], Padding::Off),
        Plan::Empty { kind: ScalingKind::IndependentInstances }
    ));
}

#[test]
fn points_are_sorted_and_share_the_one_thread_base() {
    let paces = [Middle::One(40u64), Middle::One(10), Middle::One(25)];
    let pts = points(&[4, 1, 2], &paces, 100);
    assert_eq!(pts.iter().map(|p| p.threads).collect::<Vec<_>>(), [1, 2, 4]);
    assert_eq!(pts[1].pace, Middle::One(25));
    assert!(pts.iter().all(|p| p.base == Some(Middle::One(10)) && p.bytes == 100));
    let lone = points(&[0], &[Middle::One(3)], 9);
    assert_eq!(lone[0].base, None);
}

#[test]
fn a_sweep_without_enough_text_is_empty() {
    let make = || Some(Box::new(Bytes) as Box<dyn Engine>);
    let one = vec!["text".to_string()];
    let s = measure_scaling(&make, &in_turn, &one, &[1], 1, Padding::Longest).unwrap();
    assert!(s.points.is_empty());
    assert_eq!(s.kind, ScalingKind::IndependentInstances);
    let none = || -> Option<Box<dyn Engine>> { None };
    let two = vec!["a".to_string(), "b".to_string()];
    assert!(measure_scaling(&none, &in_turn, &two, &[1], 1, Padding::Off).is_none());
}

#[test]
fn a_refused_width_encodes_nothing() {
    let seen = Arc::new(AtomicUsize::new(0));
    let mut e = Counting { seen: seen.clone() };
    assert!(time_native_batch(&mut e, &["a"], &["b"], 2, Padding::Off).is_none());
    assert_eq!(seen.load(Ordering::Relaxed), 0);
    assert!(time_native_batch(&mut e, &["a"], &["bc"], 0, Padding::Off).is_some());
    assert_eq!(seen.load(Ordering::Relaxed), 3);
}

#[test]
fn a_refused_padding_encodes_nothing() {
    let seen = Arc::new(AtomicUsize::new(0));
    let mut e = Counting { seen: seen.clone() };
    assert!(time_native_batch(&mut e, &["a"], &["b"], 0, Padding::Longest).is_none());
    assert_eq!(seen.load(Ordering::Relaxed), 0);
}

#[test]
fn an_engine_behind_a_pointer_answers_as_itself() {
    let threads = Arc::new(AtomicUsize::new(0));
    let batches = Arc::new(AtomicUsize::new(0));
    let mut pooled = Box::new(Pooled { threads: threads.clone(), batches });
    assert_eq!(<Box<Pooled> as Engine>::info(&pooled).name, "pooled");
    assert!(<Box<Pooled> as Engine>::set_threads(&mut pooled, 6));
    assert_eq!(threads.load(Ordering::Relaxed), 6);
    assert!(!<Box<Pooled> as Engine>::has_native_batch(&pooled));

    let mut bytes: Box<dyn Engine> = Box::new(Bytes);
    assert!(!<Box<dyn Engine> as Engine>::set_threads(&mut bytes, 6));
    assert!(<Box<dyn Engine> as Engine>::set_padding(&mut bytes, Padding::Off));
    assert!(!<Box<dyn Engine> as Engine>::set_padding(&mut bytes, Padding::Longest));
    let mut out = "a".to_string();
    assert!(<Box<dyn Engine> as Engine>::decode(&mut bytes, &[98], &mut out).is_ok());
    assert_eq!(out, "ab");
    assert!(<Box<dyn Engine> as Engine>::decode(&mut bytes, &[255], &mut out).is_err());
    assert_eq!(out, "ab");
}

#[test]
fn vocabulary_is_most_frequent_first() {
    assert_eq!(vocabulary("b a c a b a d c"), ["a", "b", "c", "d"]);
    assert_eq!(vocabulary("  zz  zz y "), ["zz", "y"]);
    assert!(vocabulary(" \n\t").is_empty());
}

#[test]
fn synthetic_text_is_drawn_by_its_seed() {
    let vocab: Vec<String> = ["aa", "bb", "cc", "dd"].map(String::from).to_vec();
    // The generator and the sampling, step by step.
    let mut state = 7u64 | 1;
    let mut rand = move || {
        state ^= state << 13;
        state ^= state >> 7;
        state ^= state << 17;
        state
    };
    let mut idx: Vec<usize> = (0..vocab.len()).collect();
    for i in 0..2 {
        let j = i + (rand() % (idx.len() - i) as u64) as usize;
        idx.swap(i, j);
    }
    let mut want = String::new();
    let mut used = std::collections::HashSet::new();
    let mut words = 0;
    loop {
        let i = (rand() % 2) as usize;
        if !want.is_empty() && want.len() + 1 + 2 > 20 {
            break;
        }
        used.insert(i);
        if !want.is_empty() {
            want.push(' ');
        }
        want.push_str(&vocab[idx[i]]);
        words += 1;
    }
    assert_eq!(synth_recurrence(&vocab, 2, 20, 7), (want, words, used.len()));
    // A first word larger than the text is kept whole.
    assert_eq!(synth_recurrence(&["longword".to_string()], 1, 3, 1).0, "longword");
}

/// Refuses to be handed a buffer that is not empty.
struct Strict {
    calls: usize,
    fail_at: usize,
}
impl Engine for Strict {
    fn info(&self) -> Info {
        info("strict", false)
    }
    fn encode(&mut self, text: &str, out: &mut Ids) {
        assert!(out.is_empty());
        out.extend(text.bytes().map(u32::from));
    }
    fn decode(&mut self, ids: &[u32], out: &mut String) -> Result<(), Unsupported> {
        assert!(out.is_empty());
        self.calls += 1;
        if self.calls == self.fail_at {
            return unsupported("worn out");
        }
        out.extend(ids.iter().map(|&i| char::from(i as u8)));
        Ok(())
    }
}

#[test]
fn every_document_is_handed_over_with_an_empty_buffer() {
    let docs: Vec<String> = ["one", "two", "three", "four", "five"].map(String::from).to_vec();
    let mut e = Strict { calls: 0, fail_at: 0 };
    for (reps, warmup) in [(1, true), (2, true), (4, true), (1, false), (7, false)] {
        let m = measure(&mut e, &docs, reps, warmup);
        let all: Ids = docs.concat().bytes().map(u32::from).collect();
        assert_eq!((m.tokens, m.ids_hash), (all.len(), ids_hash(&all)));
    }
    assert!(measure_latency(&mut e, &docs, 5).is_some());
    let ids = reference_ids(&mut e, &docs);
    assert_eq!(ids[1], [116, 119, 111]);
    let d = match measure_decode(&mut e, &ids, 3) {
        Ok(d) => d,
        Err(e) => panic!("{}", e.message()),
    };
    assert_eq!((d.bytes, d.text_hash), (docs.concat().len(), text_hash(&docs.concat())));
}

#[test]
fn an_engines_own_refusal_to_decode_is_handed_on() {
    let ids: Vec<Ids> = vec![vec![97], vec![98]];
    for (fail_at, reps) in [(1, 1), (2, 1), (3, 2), (6, 2)] {
        let mut e = Strict { calls: 0, fail_at };
        match measure_decode(&mut e, &ids, reps) {
            Ok(_) => panic!("decoded"),
            Err(why) => assert_eq!(why.message(), "worn out"),
        }
        assert_eq!(e.calls, fail_at);
    }
    let mut e = Strict { calls: 0, fail_at: 7 };
    assert!(measure_decode(&mut e, &ids, 2).is_ok());
}

#[test]
fn a_probe_must_have_decoded_something() {
    assert_eq!(settle_probe("").unwrap_err().message(), "decode produced no text");
    assert_eq!(settle_probe("h\u{e9}").unwrap(), (3, text_hash("h\u{e9}")));
}

#[test]
fn a_batch_without_a_fan_out_goes_on_in_its_buffer() {
    let mut out: Ids = vec![1];
    Bytes.encode_batch(&[], &mut out);
    assert_eq!(out, [1]);
    Bytes.encode_batch(&["a", "bc"], &mut out);
    let mut apart: Ids = vec![1];
    Bytes.encode_batch(&["a"], &mut apart);
    Bytes.encode_batch(&["bc"], &mut apart);
    assert_eq!(out, [1, 97, 98, 99]);
    assert_eq!(out, apart);
}

#[test]
fn a_claimed_document_is_encoded_once() {
    let mut e = Strict { calls: 0, fail_at: 0 };
    let mut buf: Ids = vec![9];
    assert!(encode_claimed(&mut e, &["a", "b"], 1, &mut buf));
    assert_eq!(buf, [98]);
    assert!(!encode_claimed(&mut e, &["a", "b"], 2, &mut buf));
    assert_eq!(buf, [98]);
}

/// Takes widths up to its limit and remembers what it was asked.
struct Asked {
    limit: usize,
    batch: bool,
    log: Arc<Mutex<Vec<String>>>,
}
impl Engine for Asked {
    fn info(&self) -> Info {
        info("asked", false)
    }
    fn encode(&mut self, text: &str, _out: &mut Ids) {
        self.log.lock().unwrap().push(format!("encode {text}"));
    }
    fn set_threads(&mut self, threads: usize) -> bool {
        self.log.lock().unwrap().push(format!("threads {threads}"));
        threads <= self.limit
    }
    fn has_native_batch(&self) -> bool {
        self.batch
    }
}

#[test]
fn instances_are_made_and_held_before_any_is_warmed() {
    let log = Arc::new(Mutex::new(Vec::new()));
    let left = AtomicUsize::new(2);
    let (l, n) = (log.clone(), &left);
    let make = move || {
        if n.load(Ordering::Relaxed) == 0 {
            return None;
        }
        n.fetch_sub(1, Ordering::Relaxed);
        Some(Asked { limit: 1, batch: false, log: l.clone() })
    };
    assert!(prepare_instances(&make, &["w"], 3, true).is_none());
    assert_eq!(*log.lock().unwrap(), ["threads 1", "threads 1"]);
    log.lock().unwrap().clear();
    left.store(2, Ordering::Relaxed);
    assert_eq!(prepare_instances(&make, &["w"], 2, true).map(|e| e.len()), Some(2));
    assert_eq!(
        *log.lock().unwrap(),
        ["threads 1", "threads 1", "encode w", "encode w"]
    );
}

#[test]
fn an_engine_is_asked_what_the_sweep_needs() {
    let log = Arc::new(Mutex::new(Vec::new()));
    let l = log.clone();
    let make = move || Some(Asked { limit: 2, batch: true, log: l.clone() });
    assert_eq!(settable_widths(&make, &[4, 2, 1]), [2, 1]);
    assert_eq!(*log.lock().unwrap(), ["threads 4", "threads 2", "threads 1"]);
    let mut e = make().unwrap();
    assert_eq!(probe(&mut e, Padding::Off), Some(true));
    assert_eq!(probe(&mut e, Padding::Longest), None);
    assert_eq!(probe(&mut Bytes, Padding::Off), Some(false));
}

#[test]
fn a_refusal_while_timing_leaves_no_points() {
    let made = Arc::new(AtomicUsize::new(0));
    let m = made.clone();
    // The probe and the question about one width succeed, the second timing does not.
    let make = move || -> Option<Box<dyn Engine>> {
        if m.fetch_add(1, Ordering::Relaxed) == 4 {
            return None;
        }
        Some(Box::new(Bytes))
    };
    let docs: Vec<String> = ["warm", "one", "two"].map(String::from).to_vec();
    let s = measure_scaling(&make, &in_turn, &docs, &[1, 1], 1, Padding::Off).unwrap();
    assert_eq!(s.kind, ScalingKind::IndependentInstances);
    assert!(s.points.is_empty());
    assert_eq!(made.load(Ordering::Relaxed), 5);
}

#[test]
fn an_even_seed_draws_what_the_next_one_draws() {
    let vocab: Vec<String> = ["aa", "bb", "cc", "dd", "ee"].map(String::from).to_vec();
    assert_eq!(synth_recurrence(&vocab, 3, 60, 8), synth_recurrence(&vocab, 3, 60, 9));
}
