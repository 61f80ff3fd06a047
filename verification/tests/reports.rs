use tokbench::cell::{dataset_metadata, identity_of, panic_text, schedule, texts_of, Task};
use tokbench::cli::{Args, MeasureCommand};
use tokbench::engine::{Class, Info, Padding};
use tokbench::number::{zero, Real};
use tokbench::registry::{engines, native, scripted, REFERENCE};
use tokbench::report::{
    apply_footprint, attach_sizes, failed_result, find_place, measured_result, named_result,
    package_ref, scripted_result, unbuilt_result, verify_decode, verify_ids, Breakdown,
    DatasetMetadata, DecodeTiming, EngineResult, Footprint, Identity, Latency, Measured,
    PackageSize, Run, ScalePoint, ScriptedReport, Timing,
};
use tokbench::scaling::ScalingMode;
use tokbench::select::{
    capacity_for, count_wanted, footprint_plan, interpreter, listed, measurement_of, no_corpora,
    no_models, padding_modes, passes, refuse_run, refuse_threads, scaling_mode, scripted_args,
    selected, sweeps_corpus, thread_sweep, times_corpus, want, CHUNK_BYTES, MAX_CHUNKS,
};
use tokbench::sheet::measurement_table;
use tokbench::stats::Middle;
use tokbench::table::{multiplier, plain_text, scaling_first, scaling_last, Cell};

fn number(x: f64) -> Real {
    Real { bits: x.to_bits() }
}

fn float(x: Real) -> f64 {
    f64::from_bits(x.bits)
}

fn strings(list: &[&str]) -> Vec<String> {
    list.iter().map(|s| s.to_string()).collect()
}

fn middle(m: Middle<Real>) -> f64 {
    match m {
        Middle::One(x) => float(x),
        Middle::Two(a, b) => (float(a) + float(b)) / 2.0,
    }
}

/// A cell as the program prints it.
fn shown(cell: &Cell) -> String {
    match cell {
        Cell::Dash => "-".to_string(),
        Cell::Text(s) => s.clone(),
        Cell::Count(n) => n.to_string(),
        Cell::Range(a, b) => format!("{a}-{b}"),
        Cell::Fixed(x, d) => format!("{:.*}", *d, float(*x)),
        Cell::MedianFixed(m, d) => format!("{:.*}", *d, middle(*m)),
        Cell::Part { measured, expected, said } => {
            format!("{measured}/{expected}{}", if *said { " measured" } else { "" })
        }
        Cell::Ratio(a, b) => format!("×{:.2}", float(*a) / float(*b)),
        Cell::Ratios(list, expected) => format!("{} of {expected}", list.len()),
        Cell::Unsupported(why) => format!("unsupported: {why}"),
        Cell::Verified => "verified".to_string(),
        Cell::Unverified => "unverified".to_string(),
        Cell::IdMismatch => "id mismatch".to_string(),
        Cell::TextMismatch => "text mismatch".to_string(),
        Cell::ComparatorUnsupported => "comparator unsupported".to_string(),
        Cell::ComparatorMissing => "comparator missing".to_string(),
        Cell::Fine => "ok".to_string(),
        Cell::NoNativePadding => "no native padding".to_string(),
        Cell::Efficiency(x, t, p) => format!("{:.0}% observed @ {t}T ({p})", float(*x)),
        Cell::NoBaseline(t, p) => format!("n/a @ {t}T ({p}, no 1T baseline)"),
        Cell::EfficiencyRange(m, a, b) => {
            format!("{:.0} ({:.0}-{:.0})", middle(*m), float(*a), float(*b))
        }
    }
}

fn rows_of(runs: &Vec<Run>, measurement: MeasureCommand, other: Option<&str>) -> (Vec<String>, Vec<Vec<String>>) {
    let sheet = measurement_table(runs, measurement, other);
    let rows = sheet
        .rows
        .iter()
        .map(|row| row.iter().map(shown).collect())
        .collect();
    (sheet.headers, rows)
}

fn encoded(name: &str, mbps: f64, hash: &str) -> EngineResult {
    let mut r = named_result(name);
    r.mbps = number(mbps);
    r.ns_per_byte = number(1000.0 / mbps);
    r.total_tokens_produced = 42;
    r.ids_hash = hash.to_string();
    r
}

fn run(model: &str, corpus: &str, results: Vec<EngineResult>) -> Run {
    Run {
        dataset_metadata: DatasetMetadata {
            file_size_bytes: 10,
            total_characters: 10,
            corpus: corpus.to_string(),
            model: model.to_string(),
            reps: 5,
            warmup: true,
            pipeline_cache_capacity: None,
        },
        results,
    }
}

fn info() -> Info {
    Info {
        name: "bytes",
        version: "1.2",
        lang: "rust",
        class: Class::Cffi,
        url: "",
        also_computes: "offsets",
        internally_parallel: true,
    }
}

fn args(line: &[&str]) -> Args {
    match Args::try_parse_from(line) {
        Ok(a) => a,
        Err(e) => panic!("{e:?}"),
    }
}

// ---------------------------------------------------------------------------
// Results
// ---------------------------------------------------------------------------

#[test]
fn an_engine_that_did_not_load_says_why() {
    let r = unbuilt_result("x", number(1.5), "no tokenizer.json");
    assert_eq!(r.tokenizer_name, "x");
    assert_eq!(r.unsupported.as_deref(), Some("no tokenizer.json"));
    assert_eq!(float(r.load_ms), 1.5);
    assert_eq!(r.engine_version, "");
    assert_eq!(r.ids_hash, "");
    let f = failed_result("x", &info(), number(2.0), "panicked while encoding this corpus");
    assert_eq!(f.engine_version, "1.2");
    assert_eq!(f.engine_lang, "rust");
    assert_eq!(f.engine_class, "cffi");
    assert_eq!(f.also_computes, "");
    assert_eq!(f.unsupported.as_deref(), Some("panicked while encoding this corpus"));
}

#[test]
fn a_measured_engine_reports_every_pass() {
    let m = Measured {
        timing: Some(Timing {
            secs: number(2.0),
            mbps: number(3.0),
            ns_per_byte: number(4.0),
            reused: true,
        }),
        identity: Some(Identity {
            tokens: 7,
            ids_hash: 0xabc,
        }),
        decoded: Some(Ok(DecodeTiming {
            mbps: number(5.0),
            ns_per_token: number(6.0),
            text_hash: 0xdef,
        })),
        latency: Some(Latency {
            p50_us: number(1.0),
            p99_us: number(2.0),
            samples: 9,
            document_bytes: 512,
        }),
        scaling: vec![point(1, 3.0, 100.0, "off")],
        padding_unsupported: strings(&["longest"]),
    };
    let r = measured_result("x", &info(), zero(), m);
    assert_eq!(r.total_tokens_produced, 7);
    assert_eq!(r.ids_hash, "0000000000000abc");
    assert_eq!(float(r.mean_execution_time_seconds), 2.0);
    assert_eq!(float(r.mbps), 3.0);
    assert!(r.reused_text);
    assert_eq!(r.decode_text_hash.as_deref(), Some("0000000000000def"));
    assert_eq!(r.decode_mbps.map(float), Some(5.0));
    assert_eq!(r.latency_samples, Some(9));
    assert_eq!(r.scaling.as_ref().map(|s| s.len()), Some(1));
    assert_eq!(r.padding_unsupported, Some(strings(&["longest"])));
    assert_eq!(r.also_computes, "offsets");
    assert!(r.internally_parallel);
    assert_eq!(r.verified, None);

    let none = measured_result(
        "x",
        &info(),
        zero(),
        Measured {
            timing: None,
            identity: None,
            decoded: Some(Err("no decode".to_string())),
            latency: None,
            scaling: Vec::new(),
            padding_unsupported: Vec::new(),
        },
    );
    assert_eq!(none.decode_unsupported.as_deref(), Some("no decode"));
    assert_eq!(none.decode_mbps, None);
    assert!(none.scaling.is_none());
    assert!(none.padding_unsupported.is_none());
    assert_eq!(none.ids_hash, "");
    assert_eq!(none.total_tokens_produced, 0);
}

fn report(unsupported: Option<&str>) -> ScriptedReport {
    ScriptedReport {
        version: "0.1".to_string(),
        lang: "python".to_string(),
        secs: number(2.0),
        tokens: 12,
        bytes: 1 << 20,
        ids_hash: 0xff,
        load_ms: number(3.0),
        also_computes: String::new(),
        internally_parallel: false,
        phases: Some(vec![("core_encoding".to_string(), 5), ("normalization".to_string(), 1)]),
        unsupported: unsupported.map(str::to_string),
    }
}

#[test]
fn a_scripted_engine_is_a_class_of_its_own() {
    let r = scripted_result("minbpe", report(None), number(0.5), number(1.9));
    assert_eq!(r.engine_class, "subprocess");
    assert_eq!(r.ids_hash, "00000000000000ff");
    assert_eq!(
        r.breakdown_nanoseconds,
        Some(Breakdown {
            normalization: 1,
            pre_tokenization: 0,
            core_encoding: 5,
            post_processing: 0,
        })
    );
    let refused = scripted_result("minbpe", report(Some("no package")), number(0.5), number(1.9));
    assert_eq!(refused.unsupported.as_deref(), Some("no package"));
    assert_eq!(refused.engine_class, "subprocess");
    assert_eq!(refused.ids_hash, "");
    assert_eq!(refused.mbps, zero());
}

#[test]
fn ids_are_checked_against_the_reference() {
    let mut results = vec![
        encoded("a", 1.0, "01"),
        unbuilt_result("b", zero(), "no"),
        encoded(REFERENCE, 2.0, "01"),
        encoded("c", 3.0, "02"),
    ];
    assert_eq!(verify_ids(&mut results), strings(&["c"]));
    let verified: Vec<Option<bool>> = results.iter().map(|r| r.verified).collect();
    assert_eq!(verified, vec![Some(true), None, Some(true), Some(false)]);
}

#[test]
fn without_a_reference_nothing_is_checked() {
    let mut results = vec![encoded("a", 1.0, "01"), unbuilt_result(REFERENCE, zero(), "no")];
    assert!(verify_ids(&mut results).is_empty());
    assert!(results.iter().all(|r| r.verified.is_none()));
    assert!(verify_decode(&mut results).is_empty());
    assert!(results.iter().all(|r| r.decode_verified.is_none()));
}

#[test]
fn decoded_text_is_checked_against_the_reference() {
    let mut reference = encoded(REFERENCE, 2.0, "01");
    reference.decode_text_hash = Some("aa".to_string());
    let mut other = encoded("c", 3.0, "02");
    other.decode_text_hash = Some("bb".to_string());
    let mut results = vec![other, reference, encoded("d", 1.0, "03")];
    assert_eq!(verify_decode(&mut results), strings(&["c"]));
    let verified: Vec<Option<bool>> = results.iter().map(|r| r.decode_verified).collect();
    assert_eq!(verified, vec![Some(false), Some(true), None]);
}

#[test]
fn sizes_are_found_by_name() {
    let mut results = vec![encoded("a", 1.0, ""), encoded("b", 1.0, "")];
    let binaries = vec![("b".to_string(), number(12.0))];
    let packages = vec![(
        "a".to_string(),
        PackageSize {
            kb: Some(number(3.0)),
            version: Some("1.0".to_string()),
            registry: Some("crates.io".to_string()),
        },
    )];
    assert_eq!(find_place(&binaries, "b"), Some(0));
    assert_eq!(find_place(&binaries, "a"), None);
    attach_sizes(&mut results, &binaries, &packages);
    assert_eq!(results[0].binary_delta_kb, None);
    assert_eq!(results[0].package_ref.as_deref(), Some("1.0 (crates.io)"));
    assert_eq!(results[0].crate_size_kb.map(float), Some(3.0));
    assert_eq!(results[1].binary_delta_kb.map(float), Some(12.0));
    assert_eq!(results[1].package_ref, None);
    let bare = PackageSize {
        kb: None,
        version: Some("2".to_string()),
        registry: None,
    };
    assert_eq!(package_ref(&bare).as_deref(), Some("2"));
    let none = PackageSize {
        kb: None,
        version: None,
        registry: Some("npm".to_string()),
    };
    assert_eq!(package_ref(&none), None);
}

#[test]
fn a_footprint_replaces_what_it_names() {
    let mut r = encoded("a", 1.0, "");
    r.engine_version = "old".to_string();
    r.engine_lang = "rust".to_string();
    apply_footprint(
        &mut r,
        Footprint {
            heap_load_mb: Some(number(10.0)),
            heap_encode_mb: None,
            memory_threads: Some(4),
            memory_parallelism: Some("native-threads".to_string()),
            engine_version: Some("new".to_string()),
            engine_lang: None,
            engine_class: Some("native".to_string()),
            also_computes: None,
            internally_parallel: Some(true),
            unsupported: None,
        },
    );
    assert_eq!(r.heap_load_mb.map(float), Some(10.0));
    assert_eq!(r.heap_encode_mb, None);
    assert_eq!(r.engine_version, "new");
    assert_eq!(r.engine_lang, "rust");
    assert_eq!(r.engine_class, "native");
    assert!(r.internally_parallel);
    assert_eq!(r.unsupported, None);
}

#[test]
fn engines_are_registered_with_their_twins() {
    let names = native();
    assert_eq!(names.len(), 28);
    assert_eq!(
        names[..4],
        ["hf-tokenizers", "hf-tokenizers-no-cache", "pipeline", "pipeline-no-cache"]
    );
    assert_eq!(names[26..], ["executorch", "executorch-no-cache"]);
    let mut once = names.clone();
    once.sort();
    once.dedup();
    assert_eq!(once.len(), names.len());
    assert!(scripted().iter().all(|(name, _)| !names.contains(&name.to_string())));
    assert!(engines().iter().all(|name| !name.ends_with("-no-cache")));
    assert_eq!(
        scripted(),
        vec![
            ("minbpe", "engines/minbpe/run.py"),
            ("mistral-common", "engines/mistral-common/run.py"),
            ("ai-tokenizer", "engines/ai-tokenizer/run.mjs"),
        ]
    );
}

// ---------------------------------------------------------------------------
// Tables
// ---------------------------------------------------------------------------

fn point(threads: usize, mbps: f64, efficiency: f64, padding: &str) -> ScalePoint {
    ScalePoint {
        threads,
        mbps: number(mbps),
        efficiency_pct: number(efficiency),
        padding: padding.to_string(),
        parallelism: "native-threads".to_string(),
    }
}

#[test]
fn ratios_need_something_to_divide_by() {
    assert_eq!(shown(&multiplier(number(3.0), number(2.0))), "×1.50");
    assert_eq!(shown(&multiplier(number(3.0), number(0.0))), "-");
    assert_eq!(shown(&multiplier(number(3.0), number(-1.0))), "-");
    assert_eq!(shown(&multiplier(number(f64::NAN), number(1.0))), "-");
    assert_eq!(shown(&multiplier(number(1.0), number(f64::INFINITY))), "-");
}

#[test]
fn cells_without_a_measured_number_have_their_text() {
    for (cell, text) in [
        (Cell::Dash, "-"),
        (Cell::Text("as it is".to_string()), "as it is"),
        (Cell::Count(12), "12"),
        (Cell::Range(3, 40), "3\u{2013}40"),
        (Cell::Part { measured: 2, expected: 3, said: true }, "2/3 measured"),
        (Cell::Part { measured: 2, expected: 3, said: false }, "2/3"),
        (Cell::Ratios(Vec::new(), 4), "0/4 comparable"),
        (Cell::Unsupported("no".to_string()), "unsupported: no"),
        (Cell::Verified, "verified"),
        (Cell::Unverified, "unverified"),
        (Cell::IdMismatch, "id mismatch"),
        (Cell::TextMismatch, "text mismatch"),
        (Cell::ComparatorUnsupported, "comparator unsupported"),
        (Cell::ComparatorMissing, "comparator missing"),
        (Cell::Fine, "ok"),
        (Cell::NoNativePadding, "no native padding"),
        (
            Cell::NoBaseline(8, "native-threads".to_string()),
            "n/a @ 8T (native-threads, no 1T baseline)",
        ),
    ] {
        assert_eq!(plain_text(&cell).as_deref(), Some(text));
    }
    let x = number(1.0);
    for cell in [
        Cell::Fixed(x, 1),
        Cell::MedianFixed(Middle::One(x), 1),
        Cell::Ratio(x, x),
        Cell::Ratios(vec![(x, x)], 4),
        Cell::Efficiency(x, 2, String::new()),
        Cell::EfficiencyRange(Middle::One(x), x, x),
    ] {
        assert_eq!(plain_text(&cell), None);
    }
}

#[test]
fn points_stay_in_their_padding_mode() {
    let mut r = encoded("a", 1.0, "");
    r.scaling = Some(vec![
        point(4, 9.0, 75.0, "off"),
        point(1, 3.0, 100.0, "off"),
        point(8, 5.0, 0.0, "longest"),
    ]);
    assert_eq!(scaling_first(&r, "off").map(|p| p.threads), Some(1));
    assert_eq!(scaling_last(&r, "off").map(|p| p.threads), Some(4));
    assert!(scaling_first(&r, "longest").is_none());
    assert_eq!(scaling_last(&r, "longest").map(|p| p.threads), Some(8));
    assert!(scaling_last(&encoded("b", 1.0, ""), "off").is_none());
}

#[test]
fn one_corpus_and_one_engine_is_a_plain_table() {
    let mut good = encoded("a", 12.5, "01");
    good.verified = Some(true);
    let runs = vec![run("gpt2", "eng", vec![good]), run("llama", "eng", vec![unbuilt_result("a", zero(), "no")])];
    let (headers, rows) = rows_of(&runs, MeasureCommand::Encode, None);
    assert_eq!(headers, strings(&["model", "MB/s", "ns/B", "tokens", "status"]));
    assert_eq!(
        rows,
        vec![
            strings(&["gpt2", "12.5", "80.00", "42", "verified"]),
            strings(&["llama", "-", "-", "-", "unsupported: no"]),
        ]
    );
    let sheet = measurement_table(&runs, MeasureCommand::Encode, None);
    assert_eq!(sheet.labels, 1);
    assert!(!sheet.align_last);
    assert!(!sheet.pivot);
}

#[test]
fn a_comparison_says_how_many_times_or_why_not() {
    let runs = vec![
        run("m1", "c", vec![encoded("a", 6.0, "01"), encoded("b", 2.0, "01")]),
        run("m2", "c", vec![encoded("a", 6.0, "01"), encoded("b", 2.0, "02")]),
        run("m3", "c", vec![encoded("a", 6.0, "01"), unbuilt_result("b", zero(), "no")]),
        run("m4", "c", vec![encoded("a", 6.0, "01")]),
    ];
    let (headers, rows) = rows_of(&runs, MeasureCommand::Encode, Some("b"));
    assert_eq!(headers, strings(&["model", "MB/s", "ns/B", "tokens", "vs b"]));
    let last: Vec<&str> = rows.iter().map(|r| r[4].as_str()).collect();
    assert_eq!(
        last,
        vec!["×3.00", "id mismatch", "comparator unsupported", "comparator missing"]
    );
}

#[test]
fn decode_latency_and_memory_have_their_columns() {
    let mut r = encoded("a", 6.0, "01");
    r.decode_mbps = Some(number(4.0));
    r.decode_ns_per_token = Some(number(2.5));
    r.decode_verified = Some(false);
    r.latency_p50_us = Some(number(1.5));
    r.latency_p99_us = Some(number(2.5));
    r.latency_samples = Some(10);
    r.heap_load_mb = Some(number(20.0));
    r.heap_encode_mb = Some(number(30.0));
    r.memory_threads = Some(2);
    r.memory_parallelism = Some("native-threads".to_string());
    let runs = vec![run("m", "c", vec![r])];
    assert_eq!(
        rows_of(&runs, MeasureCommand::Decode, None).1,
        vec![strings(&["m", "4.0", "2.5", "text mismatch"])]
    );
    assert_eq!(
        rows_of(&runs, MeasureCommand::Latency, None).1,
        vec![strings(&["m", "1.50", "2.50", "10", "ok"])]
    );
    assert_eq!(
        rows_of(&runs, MeasureCommand::Memory, None).1,
        vec![strings(&["m", "20.0", "30.0", "2", "native-threads", "ok"])]
    );
}

#[test]
fn latency_is_compared_the_other_way_round() {
    let timed = |name: &str, us: f64| {
        let mut r = encoded(name, 1.0, "01");
        r.latency_p50_us = Some(number(us));
        r.latency_p99_us = Some(number(us * 2.0));
        r.latency_samples = Some(5);
        r
    };
    let runs = vec![run("m", "c", vec![timed("a", 1.0), timed("b", 4.0)])];
    let (headers, rows) = rows_of(&runs, MeasureCommand::Latency, Some("b"));
    assert_eq!(
        headers,
        strings(&["model", "p50 us", "p99 us", "samples", "p50 vs b", "p99 vs b"])
    );
    assert_eq!(rows, vec![strings(&["m", "1.00", "2.00", "5", "×4.00", "×4.00"])]);
}

#[test]
fn a_missing_padding_mode_is_named_and_not_measured() {
    let mut r = encoded("a", 6.0, "01");
    r.scaling = Some(vec![point(1, 3.0, 100.0, "off"), point(4, 9.0, 75.0, "off")]);
    r.padding_unsupported = Some(strings(&["longest"]));
    let mut pool = encoded("a", 6.0, "01");
    pool.scaling = Some(vec![point(8, 9.0, 0.0, "off")]);
    let runs = vec![run("m", "c", vec![r]), run("n", "c", vec![pool])];
    let (headers, rows) = rows_of(&runs, MeasureCommand::Scaling, None);
    assert_eq!(
        headers,
        strings(&[
            "model",
            "1T MB/s [pad off]",
            "max MB/s [pad off]",
            "scaling [pad off]",
            "1T MB/s [pad longest]",
            "max MB/s [pad longest]",
            "scaling [pad longest]",
            "status",
        ])
    );
    assert_eq!(
        rows[0],
        strings(&[
            "m",
            "3.0",
            "9.0",
            "75% observed @ 4T (native-threads)",
            "-",
            "-",
            "no native padding",
            "unverified",
        ])
    );
    assert_eq!(
        rows[1],
        strings(&[
            "n",
            "-",
            "9.0",
            "n/a @ 8T (native-threads, no 1T baseline)",
            "-",
            "-",
            "-",
            "unverified",
        ])
    );
}

#[test]
fn several_corpora_collapse_to_medians() {
    let runs = vec![
        run("m", "c1", vec![encoded("a", 6.0, "01"), encoded("b", 2.0, "01")]),
        run("m", "c2", vec![encoded("a", 10.0, "02"), encoded("b", 2.0, "03")]),
        run("m", "c3", vec![unbuilt_result("a", zero(), "no"), encoded("b", 2.0, "03")]),
    ];
    let (headers, rows) = rows_of(&runs, MeasureCommand::Encode, Some("b"));
    assert_eq!(
        headers,
        strings(&["model", "corpora", "median MB/s", "median ns/B", "vs b"])
    );
    assert_eq!(rows.len(), 1);
    assert_eq!(rows[0][1], "2/3 measured");
    assert_eq!(rows[0][2], "8.0");
    assert_eq!(rows[0][4], "1 of 3");
    let (_, plain) = rows_of(&runs, MeasureCommand::Encode, None);
    assert_eq!(plain.len(), 2);
    assert_eq!(plain[0][0], "m");
    assert_eq!(plain[0][1], "a");
    assert_eq!(plain[0][2], "2/3");
    let sheet = measurement_table(&runs, MeasureCommand::Encode, None);
    assert!(sheet.pivot);
}

#[test]
fn two_engines_that_are_wrong_alike_enter_no_median() {
    let checked = |name: &str, mbps: f64, agrees: bool| {
        let mut r = encoded(name, mbps, "0f");
        r.verified = Some(agrees);
        r.heap_load_mb = Some(number(mbps));
        r.heap_encode_mb = Some(number(mbps));
        r
    };
    let runs = vec![
        run("m", "c1", vec![checked("a", 6.0, true), checked("b", 2.0, true)]),
        run("m", "c2", vec![checked("a", 6.0, false), checked("b", 2.0, false)]),
        run("m", "c3", vec![checked("a", 6.0, true), checked("b", 2.0, false)]),
    ];
    let (_, rows) = rows_of(&runs, MeasureCommand::Encode, Some("b"));
    assert_eq!(rows[0][4], "1 of 3");
    let (_, rows) = rows_of(&runs, MeasureCommand::Memory, Some("b"));
    assert!(rows[0].iter().filter(|cell| cell.as_str() == "1 of 3").count() >= 2);
}

#[test]
fn a_sweep_with_other_ids_is_not_compared() {
    let swept = |name: &str, mbps: f64, hash: &str| {
        let mut r = encoded(name, 1.0, hash);
        r.scaling = Some(vec![point(1, mbps, 100.0, "off"), point(2, mbps * 2.0, 100.0, "off")]);
        r
    };
    let runs = vec![
        run("m", "c1", vec![swept("a", 6.0, "01"), swept("b", 2.0, "01")]),
        run("m", "c2", vec![swept("a", 6.0, "02"), swept("b", 2.0, "03")]),
    ];
    let (_, rows) = rows_of(&runs, MeasureCommand::Scaling, Some("b"));
    assert_eq!(rows.len(), 1);
    let compared: Vec<&str> = rows[0][8..].iter().map(|s| s.as_str()).collect();
    assert_eq!(compared, vec!["1 of 2", "1 of 2", "0 of 2", "0 of 2"]);
}

// ---------------------------------------------------------------------------
// Selection
// ---------------------------------------------------------------------------

const NATIVE: [&str; 4] = ["hf-tokenizers", "hf-tokenizers-no-cache", "pipeline", "pipeline-no-cache"];

fn refusal(line: &[&str], corpora: usize) -> Option<String> {
    refuse_run(&args(line), corpora, &strings(&NATIVE), &strings(&["minbpe"]))
}

#[test]
fn every_refusal_has_its_words() {
    assert_eq!(refusal(&["tokbench"], 3), None);
    let known = "hf-tokenizers, hf-tokenizers-no-cache, pipeline, pipeline-no-cache, minbpe";
    assert_eq!(
        refusal(&["tokbench", "measure", "memory"], 1).as_deref(),
        Some("`tokbench measure memory` requires exactly one explicit --corpus")
    );
    assert_eq!(refusal(&["tokbench", "measure", "memory", "--corpus", "c"], 1), None);
    assert_eq!(
        refusal(&["tokbench", "--engine", "all", "--engine", "pipeline"], 1).as_deref(),
        Some("--engine all cannot be combined with another --engine value")
    );
    assert_eq!(
        refusal(&["tokbench", "--engine", "nope"], 1),
        Some(format!("engine nope is not compiled in; available engines: {known}"))
    );
    assert_eq!(
        refusal(&["tokbench", "--compare-to", "pipeline"], 1).as_deref(),
        Some("--compare-to is available with `tokbench measure` only")
    );
    assert_eq!(
        refusal(&["tokbench", "measure", "encode", "--compare-to", "nope"], 1),
        Some(format!("comparison engine nope is not compiled in; available engines: {known}"))
    );
    assert_eq!(
        refusal(
            &["tokbench", "measure", "encode", "--engine", "pipeline", "--compare-to", "pipeline"],
            1
        )
        .as_deref(),
        Some("--engine and --compare-to must name different engines")
    );
    assert_eq!(
        refusal(&["tokbench", "measure", "decode", "--engine", "minbpe"], 1).as_deref(),
        Some("decode, latency, scaling, and memory measurements currently support native engines only")
    );
    let lone = refuse_run(
        &args(&["tokbench"]),
        1,
        &strings(&["pipeline"]),
        &Vec::new(),
    );
    assert_eq!(
        lone.as_deref(),
        Some("decode measurement requires the hf-tokenizers engine to provide shared token IDs")
    );
    let no_pipeline = refuse_run(
        &args(&["tokbench", "--cache-capacity", "0"]),
        1,
        &strings(&["hf-tokenizers"]),
        &Vec::new(),
    );
    assert_eq!(
        no_pipeline.as_deref(),
        Some("--cache-capacity requires the pipeline engine feature")
    );
    assert_eq!(
        refusal(&["tokbench", "--cache-capacity", "0", "--engine", "hf-tokenizers"], 1).as_deref(),
        Some("--cache-capacity requires selecting the pipeline engine")
    );
    let nothing = refuse_run(
        &args(&["tokbench", "measure", "latency"]),
        1,
        &Vec::new(),
        &strings(&["minbpe"]),
    );
    assert_eq!(
        nothing.as_deref(),
        Some("no selected engines support this measurement")
    );
    assert_eq!(
        refuse_threads(&args(&["tokbench", "measure", "encode", "--threads", "2"])).as_deref(),
        Some("--threads is available with `tokbench measure memory` only")
    );
    assert_eq!(
        refuse_threads(&args(&["tokbench", "measure", "memory", "--threads", "2"])),
        None
    );
    assert_eq!(
        no_models("data/models"),
        "no selected model directories under data/models — run `make models` or check --model"
    );
    assert_eq!(
        no_corpora("data/fixtures"),
        "no selected .txt corpora under data/fixtures — run `make fixtures` or check --corpus"
    );
}

#[test]
fn a_family_runs_its_pass_alone() {
    let all = passes(&args(&["tokbench"]));
    assert!(all.encode && all.decode && all.memory);
    assert!(!all.latency && !all.scaling && !all.memory_only);
    let less = passes(&args(&["tokbench", "--no-decode", "--no-memory"]));
    assert!(less.encode && !less.decode && !less.memory);
    for name in ["encode", "decode", "latency", "scaling", "memory"] {
        let a = args(&["tokbench", "measure", name]);
        let p = passes(&a);
        assert_eq!(p.encode, name == "encode");
        assert_eq!(p.decode, name == "decode");
        assert_eq!(p.latency, name == "latency");
        assert_eq!(p.scaling, name == "scaling");
        assert_eq!(p.memory_only, name == "memory");
        assert_eq!(p.memory, name == "memory");
        assert_eq!(measurement_of(&a).map(|m| m.as_str()), Some(name));
    }
    assert_eq!(measurement_of(&args(&["tokbench"])), None);
}

#[test]
fn names_are_selected_in_order() {
    let names = strings(&["a", "b", "c"]);
    assert_eq!(selected(&names, &Vec::new()), vec![0, 1, 2]);
    assert_eq!(selected(&names, &strings(&["c", "a", "x"])), vec![0, 2]);
    assert!(listed(&names, "b"));
    assert!(!listed(&names, "x"));
    let a = args(&["tokbench", "measure", "encode", "--engine", "pipeline", "--compare-to", "hf-tokenizers"]);
    assert!(want(&a, "pipeline"));
    assert!(want(&a, "hf-tokenizers"));
    assert!(!want(&a, "minbpe"));
    assert_eq!(count_wanted(&a, &strings(&NATIVE)), 2);
    assert!(want(&args(&["tokbench", "--engine", "all"]), "minbpe"));
    assert!(want(&args(&["tokbench"]), "minbpe"));
}

#[test]
fn settings_follow_the_arguments() {
    let counts = vec![1, 2, 4, 8];
    assert_eq!(thread_sweep(&args(&["tokbench"]), &counts), counts);
    assert_eq!(
        thread_sweep(
            &args(&["tokbench", "--max-threads", "4", "--reverse-scaling"]),
            &counts
        ),
        vec![4, 2, 1]
    );
    assert_eq!(
        padding_modes(&args(&["tokbench"])),
        vec![Padding::Off, Padding::Longest]
    );
    assert_eq!(
        padding_modes(&args(&["tokbench", "--padding", "longest"])),
        vec![Padding::Longest]
    );
    assert_eq!(
        padding_modes(&args(&["tokbench", "--padding", "off"])),
        vec![Padding::Off]
    );
    assert_eq!(scaling_mode(&args(&["tokbench"])), ScalingMode::Auto);
    assert_eq!(
        scaling_mode(&args(&["tokbench", "--scaling-mode", "native-threads"])),
        ScalingMode::NativeThreads
    );
    assert_eq!(
        scaling_mode(&args(&["tokbench", "--scaling-mode", "independent-instances"])),
        ScalingMode::IndependentInstances
    );
    let a = args(&["tokbench", "--scaling", "eng", "--latency", "fra"]);
    assert!(sweeps_corpus(&a, "eng") && !sweeps_corpus(&a, "fra"));
    assert!(times_corpus(&a, "fra") && !times_corpus(&a, "eng"));
    let m = args(&["tokbench", "measure", "scaling"]);
    assert!(sweeps_corpus(&m, "any") && !times_corpus(&m, "any"));
    let c = args(&["tokbench", "--cache-capacity", "7"]);
    assert_eq!(capacity_for(&c, "pipeline"), Some(7));
    assert_eq!(capacity_for(&c, "pipeline-no-cache"), None);
}

#[test]
fn footprints_are_planned_by_the_family() {
    let full = footprint_plan(&args(&["tokbench", "--reps", "9"]));
    assert_eq!((full.threads, full.mode.as_str(), full.reps), (1, "independent-instances", 1));
    let memory = footprint_plan(&args(&[
        "tokbench", "measure", "memory", "--threads", "4", "--reps", "9",
    ]));
    assert_eq!((memory.threads, memory.mode.as_str(), memory.reps), (4, "auto", 9));
    let zero_reps = footprint_plan(&args(&["tokbench", "measure", "memory", "--reps", "0"]));
    assert_eq!(zero_reps.reps, 1);
}

#[test]
fn scripts_run_under_their_interpreter() {
    assert_eq!(interpreter("engines/ai-tokenizer/run.mjs", "python3"), "node");
    assert_eq!(interpreter("engines/minbpe/run.py", "python3"), "python3");
    assert_eq!(interpreter(".mjs", "p"), "node");
    assert_eq!(interpreter("mjs", "p"), "p");
    assert_eq!(CHUNK_BYTES, 10 * 1024);
    assert_eq!(MAX_CHUNKS, 100);
    assert_eq!(
        scripted_args("run.py", "m", "c.txt", 5),
        strings(&[
            "run.py", "--model", "m", "--corpus", "c.txt", "--reps", "5", "--chunk-bytes",
            "10240", "--max-chunks", "100",
        ])
    );
}

// ---------------------------------------------------------------------------
// Cells
// ---------------------------------------------------------------------------

#[test]
fn texts_are_cut_for_what_is_measured() {
    let text = "word ".repeat(400_000);
    let full = texts_of(&args(&["tokbench"]), "eng", &text);
    assert_eq!(full.chunks.len(), MAX_CHUNKS);
    assert!(full.scaling.is_none());
    assert!(full.latency.is_empty());
    let sweep = texts_of(&args(&["tokbench", "--scaling", "eng"]), "eng", &text);
    assert_eq!(sweep.chunks, full.chunks);
    assert_eq!(sweep.scaling.map(|list| list.concat()), Some(text.clone()));
    let latency = texts_of(
        &args(&["tokbench", "measure", "latency", "--latency-samples", "3", "--latency-bytes", "10"]),
        "eng",
        &text,
    );
    assert_eq!(latency.latency, strings(&["word word ", "word word ", "word word ", "word word "]));
}

#[test]
fn a_cell_is_described_by_what_it_was_measured_on() {
    let a = args(&["tokbench", "--no-warmup", "--reps", "3", "--cache-capacity", "9"]);
    let m = dataset_metadata(&a, "gpt2", "eng", &strings(&["abc", "日本", ""]));
    assert_eq!((m.file_size_bytes, m.total_characters), (9, 5));
    assert_eq!((m.model.as_str(), m.corpus.as_str()), ("gpt2", "eng"));
    assert_eq!((m.reps, m.warmup, m.pipeline_cache_capacity), (3, false, Some(9)));
}

#[test]
fn tasks_run_in_order() {
    let modes = vec![Padding::Off, Padding::Longest];
    let all = passes(&args(&["tokbench"]));
    assert_eq!(
        schedule(&all, true, true, true, &modes),
        vec![
            Task::Encode,
            Task::Latency,
            Task::Decode,
            Task::Sweep(Padding::Off),
            Task::Sweep(Padding::Longest),
        ]
    );
    assert_eq!(schedule(&all, false, false, false, &modes), vec![Task::Encode]);
    let scaling = passes(&args(&["tokbench", "measure", "scaling"]));
    assert_eq!(
        schedule(&scaling, false, false, true, &modes),
        vec![Task::Sweep(Padding::Off), Task::Sweep(Padding::Longest), Task::Check]
    );
    assert_eq!(panic_text(Task::Encode), Some("panicked while encoding this corpus"));
    assert_eq!(panic_text(Task::Check), Some("panicked while verifying scaling output"));
    assert_eq!(panic_text(Task::Latency), None);
}

#[test]
fn ids_are_those_of_the_measurement_or_of_the_check() {
    let m = |tokens: usize| tokbench::measure::Measure {
        pace: Middle::One(tokbench::stats::Sample { nanos: 1, bytes: 1 }),
        bytes: 1,
        tokens,
        ids_hash: tokens as u64,
        reused: false,
    };
    assert_eq!(identity_of(Some(&m(1)), Some(&m(2))).map(|i| i.tokens), Some(1));
    assert_eq!(identity_of(None, Some(&m(2))).map(|i| i.ids_hash), Some(2));
    assert!(identity_of(None, None).is_none());
}
