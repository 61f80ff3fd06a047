use std::collections::BTreeSet;

use tokbench::adapter::{
    extend_batch, extend_ids, settle_decode, settle_optional_decode, width_of, Width,
};
use tokbench::capacity::{cap_model, with_cache_capacity};
use tokbench::engine::{Class, Engine, Ids, Info, Unsupported};
use tokbench::feed::{
    counted_answer, llama_answer, room_before_feed, room_before_finish, transform_size, Answer,
    Fed, Feeding,
};
use tokbench::json::{find_member, set_member, write_object};
use tokbench::memory::{
    child_args, combine_footprints, encode_share, prepare_workers, refuse_workers, report_line,
    sample_of_line, FootprintSample,
};
use tokbench::openai::{choose_encoding, Adapter, Encoding};
use tokbench::ranks::{parse_rank, parse_ranks, token_of_line, Token};
use tokbench::rss::{around, current, delta, peak, status_kb};
use tokbench::scaling::ScalingMode;
use tokbench::spans::{
    check_bytes, known_spelling, prune, Spelling, CL100K_BASE_PATTERN, GPT2_PATTERN,
};
use tokbench::stats::Middle;
use tokbench::text::Fault;

fn strings(list: &[&str]) -> Vec<String> {
    list.iter().map(|s| s.to_string()).collect()
}

fn message<T>(r: Result<T, Unsupported>) -> String {
    match r {
        Ok(_) => panic!("accepted"),
        Err(e) => e.message().to_string(),
    }
}

// ---------------------------------------------------------------------------
// Around a library's calls
// ---------------------------------------------------------------------------

#[test]
fn ids_are_appended_and_a_failure_appends_none() {
    let mut out: Ids = vec![7];
    extend_ids(Some(vec![1, 2]), &mut out);
    extend_ids(None, &mut out);
    assert_eq!(out, vec![7, 1, 2]);
    extend_batch(Some(vec![vec![3], vec![], vec![4, 5]]), &mut out);
    extend_batch(None, &mut out);
    assert_eq!(out, vec![7, 1, 2, 3, 4, 5]);
}

#[test]
fn decodes_append_or_say_why() {
    let mut out = "a".to_string();
    assert!(settle_decode(Ok("bc".to_string()), &mut out).is_ok());
    assert_eq!(out, "abc");
    assert_eq!(
        message(settle_decode(Err("bad id".to_string()), &mut out)),
        "decode failed: bad id"
    );
    assert!(settle_optional_decode(Some("d".to_string()), &mut out).is_ok());
    assert_eq!(
        message(settle_optional_decode(None, &mut out)),
        "decode returned None (invalid utf-8)"
    );
    assert_eq!(out, "abcd");
}

#[test]
fn widths_ask_for_a_pool_beyond_one_thread() {
    assert_eq!(width_of(0), Width::Refused);
    assert_eq!(width_of(1), Width::Own);
    assert_eq!(width_of(8), Width::Pool(8));
}

// ---------------------------------------------------------------------------
// Rank tables
// ---------------------------------------------------------------------------

fn listed(table: &[Token]) -> Vec<(Vec<u8>, u32)> {
    table.iter().map(|t| (t.bytes.clone(), t.rank)).collect()
}

#[test]
fn ranks_are_read_line_by_line() {
    let table = match parse_ranks("IQ== 0\r\n\n   \nIg== +1 and more\naGVsbG8= 2\n") {
        Ok(t) => t,
        Err(e) => panic!("{}", e.message()),
    };
    assert_eq!(
        listed(&table),
        vec![
            (b"!".to_vec(), 0),
            (b"\"".to_vec(), 1),
            (b"hello".to_vec(), 2),
        ]
    );
    assert!(matches!(parse_ranks(""), Ok(t) if t.is_empty()));
}

#[test]
fn the_first_line_that_is_wrong_is_named() {
    assert_eq!(
        message(parse_ranks("IQ== 0\n\nIg==\n")),
        "ranks.tiktoken:3: malformed"
    );
    assert_eq!(
        message(parse_ranks("IQ== 0\nIg== x\n")),
        "ranks.tiktoken:2: invalid digit found in string"
    );
    assert_eq!(
        message(parse_ranks("IQ== 4294967296")),
        "ranks.tiktoken:1: number too large to fit in target type"
    );
    assert_eq!(
        message(parse_ranks("I!== 1")),
        "ranks.tiktoken:1: Invalid symbol 33, offset 1."
    );
    assert_eq!(
        message(token_of_line(9, Err("what".to_string()), "x")),
        "ranks.tiktoken:9: what"
    );
    let token = match token_of_line(9, Ok(vec![1, 2]), "12") {
        Ok(t) => t,
        Err(e) => panic!("{}", e.message()),
    };
    assert_eq!((token.bytes, token.rank), (vec![1, 2], 12));
}

#[test]
fn ranks_are_read_as_std_reads_them() {
    for s in [
        "0", "+0", "+", "-", "-1", "1-", "4294967295", "4294967296", "99999999999x", "429496729x",
        "4294967295x", "é", "+-1", "0000000000000000001",
    ] {
        let std_reads = s.parse::<u32>();
        match parse_rank(s) {
            Ok(n) => assert_eq!(std_reads, Ok(n), "{s}"),
            Err(f) => match std_reads {
                Ok(_) => panic!("{s}"),
                Err(e) => assert_eq!(e.to_string(), f.as_str(), "{s}"),
            },
        }
    }
    assert_eq!(parse_rank("x"), Err(Fault::Digit));
    assert_eq!(parse_rank("5000000000"), Err(Fault::Large));
}

fn table(list: &[(&str, u32)]) -> Vec<Token> {
    list.iter()
        .map(|(s, r)| Token {
            bytes: s.as_bytes().to_vec(),
            rank: *r,
        })
        .collect()
}

/// Takes away what does not split, again and again.
fn prune_by_rounds(list: &[(&str, u32)]) -> Vec<String> {
    let mut keys: BTreeSet<String> = list.iter().map(|(s, _)| s.to_string()).collect();
    loop {
        let gone: Vec<String> = keys
            .iter()
            .filter(|s| s.len() > 1 && !(1..s.len()).any(|p| keys.contains(&s[..p]) && keys.contains(&s[p..])))
            .cloned()
            .collect();
        if gone.is_empty() {
            break;
        }
        for s in gone {
            keys.remove(&s);
        }
    }
    list.iter()
        .map(|(s, _)| s.to_string())
        .filter(|s| keys.contains(s))
        .collect()
}

#[test]
fn unreachable_spans_are_dropped() {
    let lists: [&[(&str, u32)]; 4] = [
        &[("h", 0), ("e", 1), ("l", 2), ("he", 3), ("hel", 4), ("hello", 5), ("ll", 6), ("helll", 7)],
        &[("ab", 0), ("a", 1), ("abab", 2)],
        &[("", 0), ("a", 1), ("aa", 2), ("aaaa", 3), ("aaa", 4), ("aab", 5)],
        &[],
    ];
    for list in lists {
        let kept: Vec<String> = prune(table(list))
            .iter()
            .map(|t| String::from_utf8_lossy(&t.bytes).to_string())
            .collect();
        assert_eq!(kept, prune_by_rounds(list));
    }
}

#[test]
fn what_is_kept_splits_within_what_is_kept() {
    let kept = prune(table(&[
        ("a", 0), ("b", 1), ("c", 2), ("ab", 3), ("abc", 4), ("xb", 5), ("abxb", 6),
    ]));
    let keys: BTreeSet<Vec<u8>> = kept.iter().map(|t| t.bytes.clone()).collect();
    assert_eq!(keys.len(), 5);
    for k in &keys {
        assert!(k.len() <= 1 || (1..k.len()).any(|p| keys.contains(&k[..p]) && keys.contains(&k[p..])));
    }
}

#[test]
fn every_byte_needs_a_token_and_a_rank_of_its_own() {
    let mut whole: Vec<Token> = (0..=255u8)
        .map(|b| Token {
            bytes: vec![b],
            rank: b as u32 + 10,
        })
        .collect();
    assert!(check_bytes(&whole).is_ok());
    whole[3].rank = 12;
    assert_eq!(
        message(check_bytes(&whole)),
        "vocabulary has 256 single-byte tokens over 255 distinct ids; \
         wordchipper needs a 1:1 table for all 256 bytes"
    );
    assert_eq!(
        message(check_bytes(&table(&[("a", 0), ("b", 0), ("ab", 2)]))),
        "vocabulary has 2 single-byte tokens over 1 distinct ids; \
         wordchipper needs a 1:1 table for all 256 bytes"
    );
}

#[test]
fn known_patterns_are_recognised() {
    assert_eq!(
        GPT2_PATTERN,
        r"'s|'t|'re|'ve|'m|'ll|'d| ?\p{L}+| ?\p{N}+| ?[^\s\p{L}\p{N}]+|\s+(?!\S)|\s+"
    );
    assert_eq!(
        CL100K_BASE_PATTERN,
        r"(?i:'s|'t|'re|'ve|'m|'ll|'d)|[^\r\n\p{L}\p{N}]?\p{L}+|\p{N}{1,3}| ?[^\s\p{L}\p{N}]+[\r\n]*|\s*[\r\n]+|\s+(?!\S)|\s+"
    );
    assert_eq!(known_spelling(&format!("{GPT2_PATTERN}\n")), Some(Spelling::Gpt2));
    assert_eq!(known_spelling(CL100K_BASE_PATTERN), Some(Spelling::Cl100kBase));
    assert_eq!(known_spelling(r"\s+"), None);
}

// ---------------------------------------------------------------------------
// Prebuilt encodings
// ---------------------------------------------------------------------------

#[test]
fn encodings_are_chosen_by_name() {
    assert!(matches!(choose_encoding(" cl100k_base\n"), Ok(Encoding::Cl100kBase)));
    assert!(matches!(choose_encoding("o200k_base"), Ok(Encoding::O200kBase)));
    assert!(matches!(choose_encoding("voyage3_base"), Ok(Encoding::Voyage3Base)));
    assert_eq!(
        message(choose_encoding("gpt\"2\n")),
        "bpe-openai has no prebuilt encoding \"gpt\\\"2\""
    );
}

#[test]
fn encodings_give_their_ids() {
    assert_eq!(Encoding::Cl100kBase.encode("hello world"), vec![15339, 1917]);
    assert_eq!(Encoding::O200kBase.encode("hello world"), vec![24912, 2375]);
    let voyage = Encoding::Voyage3Base.encode("hello world");
    assert!(!voyage.is_empty());
    assert_eq!(voyage, bpe_openai::voyage3_base().encode("hello world"));
    let mut engine = match Adapter::open("cl100k_base") {
        Ok(e) => e,
        Err(e) => panic!("{}", e.message()),
    };
    let mut out: Ids = vec![1];
    engine.encode("hello world", &mut out);
    assert_eq!(out, vec![1, 15339, 1917]);
    assert_eq!(engine.info().name, "rust-gems-bpe");
    assert!(!engine.set_threads(4));
    let mut text = String::new();
    assert_eq!(
        message(engine.decode(&[15339], &mut text)),
        "library exposes no decode entry point"
    );
}

// ---------------------------------------------------------------------------
// Configs
// ---------------------------------------------------------------------------

fn parsed(text: &str) -> serde_json::Value {
    match serde_json::from_str(text) {
        Ok(v) => v,
        Err(e) => panic!("{e}"),
    }
}

#[test]
fn a_capacity_is_written_into_a_bpe_model() {
    let config = r#"{"version":"1.0","model":{"type":"BPE","vocab":{"a":0,"é\n":1},"x":1.5},"z":[null,true]}"#;
    let text = match with_cache_capacity(config, 123) {
        Ok(t) => t,
        Err(e) => panic!("{}", e.message()),
    };
    let mut expected = parsed(config);
    expected["model"]["cache_capacity"] = serde_json::Value::from(123);
    assert_eq!(parsed(&text), expected);
    assert_eq!(text, expected.to_string());
    let again = match with_cache_capacity(&text, 0) {
        Ok(t) => t,
        Err(e) => panic!("{}", e.message()),
    };
    assert_eq!(parsed(&again)["model"]["cache_capacity"], 0);
    assert_eq!(parsed(&again)["model"]["x"], 1.5);
}

#[test]
fn other_configs_take_no_capacity() {
    assert_eq!(
        message(with_cache_capacity("{", 1)),
        "cannot parse canonical config: EOF while parsing an object at line 1 column 1"
    );
    for config in ["[]", "{}", r#"{"model":[]}"#, r#"{"model":null}"#, "3"] {
        assert_eq!(
            message(with_cache_capacity(config, 1)),
            "canonical config has no model object"
        );
    }
    for config in [r#"{"model":{}}"#, r#"{"model":{"type":"Unigram"}}"#, r#"{"model":{"type":1}}"#] {
        assert_eq!(
            message(with_cache_capacity(config, 1)),
            "cache capacity is configurable only for the pipeline BPE model"
        );
    }
    assert!(cap_model(Vec::new(), None, 1).is_err());
    let capped = match cap_model(Vec::new(), Some("BPE".to_string()), 64) {
        Ok(list) => list,
        Err(e) => panic!("{}", e.message()),
    };
    assert_eq!(capped, vec![("cache_capacity".to_string(), "64".to_string())]);
}

#[test]
fn members_are_set_in_place_or_in_order() {
    let list = vec![
        ("a".to_string(), "1".to_string()),
        ("c".to_string(), "3".to_string()),
    ];
    let b = set_member(list, "b", "2");
    assert_eq!(write_object(&b), r#"{"a":1,"b":2,"c":3}"#);
    let c = set_member(b, "c", "\"x\"");
    assert_eq!(find_member(&c, "c"), Some("\"x\""));
    assert_eq!(find_member(&c, "a"), Some("1"));
    assert_eq!(find_member(&c, "d"), None);
    let d = set_member(c, "d\"", "null");
    assert_eq!(write_object(&d), r#"{"a":1,"b":2,"c":"x","d\"":null}"#);
}

// ---------------------------------------------------------------------------
// Buffers
// ---------------------------------------------------------------------------

#[test]
fn working_space_is_a_power_of_two() {
    for len in [0, 1, 1365, 1366, 2730, 2731, 100_000] {
        assert_eq!(
            transform_size(len),
            len.saturating_mul(3).max(4096).next_power_of_two(),
            "{len}"
        );
    }
    assert_eq!(room_before_feed(10, 300, 5000), None);
    assert_eq!(room_before_feed(10, 265, 5000), Some(2500));
    assert_eq!(room_before_feed(9000, 9000, 5000), Some(9000));
    assert_eq!(room_before_feed(0, 0, 10), Some(1024));
    assert_eq!(room_before_finish(10, 20, 11), Some(11));
    assert_eq!(room_before_finish(10, 20, 10), None);
}

#[test]
fn feeding_is_given_up_on_errors_and_idle_libraries() {
    let start = Feeding::start(10);
    assert!(!start.done());
    assert_eq!(start.after_feed(false, 3, 3), Fed::GivenUp);
    let Fed::On { feeding, grow } = start.after_feed(true, 4, 1) else {
        panic!("given up")
    };
    assert_eq!((feeding.consumed, feeding.stalls, grow), (4, 0, false));
    let Fed::On { feeding, grow } = feeding.after_feed(true, 0, 0) else {
        panic!("given up")
    };
    assert_eq!((feeding.consumed, feeding.stalls, grow), (4, 1, true));
    let Fed::On { feeding, .. } = feeding.after_feed(true, 0, 0) else {
        panic!("given up")
    };
    assert_eq!(feeding.after_feed(true, 0, 0), Fed::GivenUp);
    let Fed::On { feeding, .. } = feeding.after_feed(true, 6, 0) else {
        panic!("given up")
    };
    assert_eq!(feeding.stalls, 0);
    assert!(feeding.done());
}

#[test]
fn answers_are_taken_or_asked_for_once_more() {
    assert_eq!(llama_answer(5, true), Answer::Take(5));
    assert_eq!(llama_answer(-7, true), Answer::Again(7));
    assert_eq!(llama_answer(-7, false), Answer::Nothing);
    assert_eq!(llama_answer(i32::MIN, true), Answer::Again(1 << 31));
    assert_eq!(counted_answer(-1, 10, true), Answer::Nothing);
    assert_eq!(counted_answer(10, 10, true), Answer::Take(10));
    assert_eq!(counted_answer(11, 10, true), Answer::Again(11));
    assert_eq!(counted_answer(11, 10, false), Answer::Nothing);
}

// ---------------------------------------------------------------------------
// Footprints
// ---------------------------------------------------------------------------

struct Pool {
    width: usize,
    batch: bool,
    pin: bool,
    seen: Vec<String>,
}

impl Engine for Pool {
    fn info(&self) -> Info {
        Info {
            name: "pool",
            version: "0",
            lang: "rust",
            class: Class::Native,
            url: "",
            also_computes: "",
            internally_parallel: false,
        }
    }
    fn encode(&mut self, text: &str, out: &mut Ids) {
        assert!(out.is_empty());
        out.push(text.len() as u32);
        self.seen.push(text.to_string());
    }
    fn set_threads(&mut self, threads: usize) -> bool {
        if threads == 1 {
            return self.pin;
        }
        threads <= self.width
    }
    fn has_native_batch(&self) -> bool {
        self.batch
    }
}

fn pool(width: usize, batch: bool, pin: bool) -> impl Fn() -> Option<Pool> {
    move || {
        Some(Pool {
            width,
            batch,
            pin,
            seen: Vec::new(),
        })
    }
}

#[test]
fn workers_are_a_pool_or_one_instance_each() {
    let w = prepare_workers(&pool(8, true, true), ScalingMode::Auto, 4);
    let w = match w {
        Ok(w) => w,
        Err(e) => panic!("{e}"),
    };
    assert_eq!((w.engines.len(), w.native, w.parallelism_text()), (1, true, "native-threads"));
    let w = match prepare_workers(&pool(0, false, false), ScalingMode::Auto, 4) {
        Ok(w) => w,
        Err(e) => panic!("{e}"),
    };
    assert_eq!((w.engines.len(), w.native, w.parallelism_text()), (4, false, "independent-instances"));
    let w = match prepare_workers(&pool(8, true, true), ScalingMode::IndependentInstances, 3) {
        Ok(w) => w,
        Err(e) => panic!("{e}"),
    };
    assert_eq!((w.engines.len(), w.native), (3, false));
    assert_eq!(w.info.name, "pool");
}

#[test]
fn workers_are_refused_with_a_reason() {
    let why = |r: Result<tokbench::memory::Workers<Pool>, String>| match r {
        Ok(_) => panic!("accepted"),
        Err(e) => e,
    };
    assert_eq!(
        why(prepare_workers(&pool(2, true, true), ScalingMode::NativeThreads, 4)),
        "engine cannot run with 4 native threads"
    );
    assert_eq!(
        why(prepare_workers(&pool(2, true, false), ScalingMode::Auto, 4)),
        "engine has a native batch pool that cannot be pinned to one thread"
    );
    let none = || None::<Pool>;
    assert_eq!(why(prepare_workers(&none, ScalingMode::Auto, 1)), "could not load engine");
    let left = std::cell::Cell::new(2);
    let few = || {
        if left.get() == 0 {
            return None;
        }
        left.set(left.get() - 1);
        pool(0, false, false)()
    };
    assert_eq!(
        why(prepare_workers(&few, ScalingMode::Auto, 3)),
        "could not load every worker instance"
    );
    assert_eq!(refuse_workers(ScalingMode::Auto, 2, true, true, false), None);
    assert_eq!(
        refuse_workers(ScalingMode::NativeThreads, 2, false, false, true).as_deref(),
        Some("engine cannot run with 2 native threads")
    );
}

#[test]
fn shares_cover_every_document_once() {
    let docs = strings(&["a", "b", "c", "d", "e", "f", "g"]);
    for workers in 1..=9 {
        let mut seen: Vec<String> = Vec::new();
        for worker in 0..workers {
            let engine = match pool(0, false, false)() {
                Some(e) => e,
                None => panic!("no engine"),
            };
            let engine = encode_share(engine, &docs, worker, workers);
            let expected: Vec<String> = docs.iter().skip(worker).step_by(workers).cloned().collect();
            assert_eq!(engine.seen, expected);
            seen.extend(engine.seen);
        }
        seen.sort();
        assert_eq!(seen, docs);
    }
}

#[test]
fn a_footprint_process_is_started_by_its_arguments() {
    assert_eq!(
        child_args("pipeline", "m", "c.txt", Some(0), 4, "auto"),
        strings(&[
            "--memory", "pipeline", "--memory-model", "m", "--memory-corpus", "c.txt",
            "--memory-threads", "4", "--scaling-mode", "auto", "--cache-capacity", "0",
        ])
    );
    assert_eq!(child_args("a", "m", "c", None, 1, "auto").len(), 10);
}

#[test]
fn a_report_is_the_last_object_printed() {
    assert_eq!(
        report_line("noise\n {\"a\":1}\n  {\"b\":2}\r\nbye\n").as_deref(),
        Some("  {\"b\":2}")
    );
    assert_eq!(report_line("nothing here\n"), None);
}

fn sample(line: &str) -> FootprintSample {
    match sample_of_line(line) {
        Some(s) => s,
        None => panic!("no sample"),
    }
}

fn value(m: Middle<tokbench::number::Real>) -> f64 {
    match m {
        Middle::One(x) => f64::from_bits(x.bits),
        Middle::Two(a, b) => (f64::from_bits(a.bits) + f64::from_bits(b.bits)) / 2.0,
    }
}

#[test]
fn reports_are_read_member_by_member() {
    let s = sample(
        r#"{"heap_load_mb":1.5,"heap_encode_mb":null,"memory_threads":4,"memory_parallelism":"native-threads","engine_version":"1 \"x\"","internally_parallel":true}"#,
    );
    assert_eq!(s.heap_load_mb.map(|x| f64::from_bits(x.bits)), Some(1.5));
    assert_eq!(s.heap_encode_mb, None);
    assert_eq!(s.memory_threads, Some(4));
    assert_eq!(s.memory_parallelism.as_deref(), Some("native-threads"));
    assert_eq!(s.engine_version.as_deref(), Some("1 \"x\""));
    assert_eq!(s.engine_lang, None);
    assert_eq!(s.internally_parallel, Some(true));
    assert_eq!(s.unsupported, None);
    let wrong = sample(r#"{"heap_load_mb":"1","memory_threads":-4,"engine_lang":7,"internally_parallel":1}"#);
    assert_eq!(wrong.heap_load_mb, None);
    assert_eq!(wrong.memory_threads, None);
    assert_eq!(wrong.engine_lang, None);
    assert_eq!(wrong.internally_parallel, None);
    let whole = sample(r#"{"heap_load_mb":3}"#);
    assert_eq!(whole.heap_load_mb.map(|x| f64::from_bits(x.bits)), Some(3.0));
    assert!(sample_of_line("{").is_none());
}

#[test]
fn repetitions_are_combined_by_their_median() {
    assert!(combine_footprints(&Vec::new()).is_none());
    let list = vec![
        sample(r#"{"heap_load_mb":5,"engine_version":"first"}"#),
        sample(r#"{"heap_load_mb":1,"heap_encode_mb":9}"#),
        sample(r#"{"heap_load_mb":3}"#),
        sample(r#"{"heap_load_mb":4}"#),
    ];
    let f = match combine_footprints(&list) {
        Some(f) => f,
        None => panic!("nothing"),
    };
    assert_eq!(f.heap_load_mb.map(value), Some(3.5));
    assert_eq!(f.heap_encode_mb.map(value), Some(9.0));
    assert_eq!(f.first.engine_version.as_deref(), Some("first"));
    let refused = vec![sample(r#"{"unsupported":"no","engine_version":"x","heap_load_mb":1}"#)];
    let f = match combine_footprints(&refused) {
        Some(f) => f,
        None => panic!("nothing"),
    };
    assert_eq!(f.first.unsupported.as_deref(), Some("no"));
    assert_eq!(f.first.engine_version, None);
    assert_eq!(f.heap_load_mb, None);
}

// ---------------------------------------------------------------------------
// Resident memory
// ---------------------------------------------------------------------------

fn resident_now() -> Option<u64> {
    let stats = memory_stats::memory_stats()?;
    current(Some(&format!("Name:\ttest\nVmRSS:\t{} kB\n", stats.physical_mem / 1024)), None)
}

#[test]
fn rss_moves_with_a_real_allocation() {
    let Some(before) = resident_now() else {
        println!("RSS unavailable on this platform; skipping");
        return;
    };
    assert!(before > 0, "a running process has non-zero RSS");

    let mut big: Vec<u8> = vec![0; 64 << 20];
    for i in (0..big.len()).step_by(4096) {
        big[i] = 1;
    }
    let after = match resident_now() {
        Some(bytes) => bytes,
        None => panic!("RSS readable"),
    };
    assert!(
        after > before,
        "RSS should grow after touching 64 MB (before={before}, after={after})"
    );
    std::hint::black_box(&big);
}

#[test]
fn resident_memory_is_read_from_either_source() {
    let status = "Name:\tx\nVmHWM:\t   2048 kB\nVmRSS:\t 1024 kB\nVmRSS:\t 9 kB\n";
    assert_eq!(status_kb(status, "VmRSS:"), Some(1024));
    assert_eq!(current(Some(status), Some("7")), Some(1024 * 1024));
    assert_eq!(peak(Some(status)), Some(2048 * 1024));
    assert_eq!(current(Some("Name:\tx\n"), Some(" 512\n")), Some(512 * 1024));
    assert_eq!(current(None, Some("many")), None);
    assert_eq!(current(None, None), None);
    assert_eq!(peak(None), None);
    assert_eq!(peak(Some("VmHWM:\n")), None);
}

#[test]
fn growth_is_measured_around_a_call() {
    assert_eq!(delta(Some(5), Some(9)), Some(4));
    assert_eq!(delta(Some(9), Some(5)), Some(0));
    assert_eq!(delta(None, Some(5)), None);
    let readings = std::cell::RefCell::new(vec![30, 10]);
    let read = || readings.borrow_mut().pop();
    let (value, grew, high) = around(|| "done", &read, &|| Some(99));
    assert_eq!((value, grew, high), ("done", Some(20), Some(99)));
}

#[test]
fn numbers_are_read_once() {
    for number in ["12.345678901234567", "0.1", "1e-7", "4.35", "9007199254740993", "7.000000000000001"] {
        let line = format!("{{\"heap_load_mb\":{number},\"heap_encode_mb\":\"{number}\"}}");
        let value: serde_json::Value = serde_json::from_str(&line).unwrap();
        let found = sample_of_line(&line).unwrap();
        assert_eq!(
            found.heap_load_mb.map(|x| x.bits),
            value["heap_load_mb"].as_f64().map(f64::to_bits)
        );
        assert!(found.heap_encode_mb.is_none());

        let config = format!("{{\"model\":{{\"type\":\"BPE\",\"dropout\":{number}}},\"x\":[{number}]}}");
        let mut value: serde_json::Value = serde_json::from_str(&config).unwrap();
        value["model"]["cache_capacity"] = serde_json::Value::from(7);
        match with_cache_capacity(&config, 7) {
            Ok(text) => assert_eq!(text, value.to_string()),
            Err(e) => panic!("{}", e.message()),
        }
    }
}
