use tokbench::banner::{banner, measurement_detail, show_list, Extent};
use tokbench::cli::Args;
use tokbench::layout::{
    compact_duration, coverage_text, format_scaling_efficiency, join, label_value,
    pivot_engine_columns, progress_line, repeat, sorted_set, table_lines,
};
use tokbench::number::{zero, Real};
use tokbench::order::{at_most_text, ranked, Ranked};
use tokbench::scan::{begins, contains, is_white, split_lines, split_words, trim};
use tokbench::stats::{median, Middle};
use tokbench::text::{
    byte_len, char_width, chars_of, decimal_text, hex16_text, parse_u64, parse_usize, same,
    string_of, two_digit_text,
};
use tokbench::threads::{perf_cores, thread_counts};

const SECOND: u128 = 1_000_000_000;

fn strings(list: &[&str]) -> Vec<String> {
    list.iter().map(|s| s.to_string()).collect()
}

fn number(x: f64) -> Real {
    Real { bits: x.to_bits() }
}

fn float(x: Real) -> f64 {
    f64::from_bits(x.bits)
}

fn middle(m: Middle<Real>) -> f64 {
    match m {
        Middle::One(x) => float(x),
        Middle::Two(a, b) => (float(a) + float(b)) / 2.0,
    }
}

fn median_multiplier(values: Vec<f64>, expected: usize) -> String {
    let reals: Vec<Real> = values.iter().map(|&x| number(x)).collect();
    if reals.is_empty() {
        return coverage_text(None, 0, expected);
    }
    let shown = format!("{:.2}", middle(median(&reals)));
    coverage_text(Some(&shown), reals.len(), expected)
}

const SAMPLES: [&str; 12] = [
    "",
    " ",
    "a",
    "one two",
    "  one\ttwo \u{3000}three\u{85}",
    "a\nb\r\nc\r\r\n\n",
    "no end",
    "ends\n",
    "\n\n",
    "\r\n",
    "日本語 の\u{2028}テキスト\nです\r",
    "x\u{feff}y\u{200b}z",
];

#[test]
fn formats_atomic_progress() {
    assert_eq!(compact_duration(65 * SECOND), "1m05s");
    assert_eq!(compact_duration(3661 * SECOND), "1h01m");
    assert_eq!(
        progress_line(5, 10, 20 * SECOND as u64),
        "[##############--------------] 5/10 cells  elapsed 20s  eta 20s"
    );
}

#[test]
fn formats_partial_comparison_coverage() {
    assert_eq!(
        median_multiplier(vec![2.0, 4.0], 3),
        "×3.00 on 2/3 comparable"
    );
    assert_eq!(median_multiplier(Vec::new(), 3), "0/3 comparable");
}

#[test]
fn labels_scaling_as_observed_without_reinterpreting_it() {
    assert_eq!(
        format_scaling_efficiency(98.2_f64.round() as u64),
        "98% observed"
    );
    assert_eq!(
        format_scaling_efficiency(107.6_f64.round() as u64),
        "108% observed"
    );
}

#[test]
fn whitespace_is_unicode_whitespace() {
    for code in 0..=0x10ffff_u32 {
        if let Some(c) = char::from_u32(code) {
            assert_eq!(is_white(c), c.is_whitespace(), "{code:x}");
        }
    }
}

#[test]
fn words_lines_and_trimming_are_those_of_std() {
    for s in SAMPLES {
        let words: Vec<&str> = s.split_whitespace().collect();
        assert_eq!(split_words(s), words, "{s:?}");
        let lines: Vec<&str> = s.lines().collect();
        assert_eq!(split_lines(s), lines, "{s:?}");
        assert_eq!(trim(s), s.trim(), "{s:?}");
    }
}

#[test]
fn words_hold_no_whitespace_and_none_is_empty() {
    for s in SAMPLES {
        for w in split_words(s) {
            assert!(!w.is_empty());
            assert!(w.chars().all(|c| !c.is_whitespace()));
        }
    }
}

#[test]
fn searching_is_that_of_std() {
    for s in SAMPLES {
        for p in ["", "a", "one", "の", "\n", "two ", "nothing"] {
            assert_eq!(begins(s, p), s.starts_with(p));
            assert_eq!(contains(s, p), s.contains(p));
        }
    }
}

#[test]
fn numbers_are_written_and_read_back() {
    for n in [0, 1, 9, 10, 99, 100, 65_536, u64::MAX - 1, u64::MAX] {
        assert_eq!(decimal_text(n), n.to_string());
        assert_eq!(parse_u64(&decimal_text(n)), Some(n));
        assert_eq!(hex16_text(n), format!("{n:016x}"));
    }
    for s in ["", "+", "-1", "+7", "0007", "1x", " 1", "18446744073709551616", "99999999999999999999x"] {
        assert_eq!(parse_u64(s), s.parse::<u64>().ok(), "{s:?}");
        assert_eq!(parse_usize(s), s.parse::<usize>().ok(), "{s:?}");
    }
    assert_eq!(two_digit_text(5), "05");
    assert_eq!(two_digit_text(59), "59");
}

#[test]
fn characters_and_bytes_agree_with_std() {
    for s in SAMPLES {
        assert_eq!(byte_len(s), s.len());
        let v = chars_of(s);
        assert_eq!(v, s.chars().collect::<Vec<char>>());
        assert_eq!(string_of(&v, 0, v.len()), s);
        for t in SAMPLES {
            assert_eq!(same(s, t), s == t);
            assert_eq!(at_most_text(s, t), s <= t);
        }
    }
    for c in ['a', 'é', '日', '😀'] {
        assert_eq!(char_width(c), c.len_utf8());
    }
}

#[test]
fn ranking_is_stable_and_keeps_every_item() {
    let items: Vec<u64> = vec![5, 3, 5, 1, 3, 3, 0];
    let order = ranked(&items);
    let mut expected: Vec<usize> = (0..items.len()).collect();
    expected.sort_by_key(|&i| items[i]);
    assert_eq!(order, expected);
    let mut seen = order.clone();
    seen.sort();
    assert_eq!(seen, (0..items.len()).collect::<Vec<usize>>());
    let none: Vec<u64> = Vec::new();
    assert!(ranked(&none).is_empty());
}

#[test]
fn reals_keep_the_total_order() {
    let values = [
        f64::NEG_INFINITY,
        -1.5,
        -0.0,
        0.0,
        f64::MIN_POSITIVE,
        1.0,
        2.5,
        f64::INFINITY,
        f64::NAN,
        -f64::NAN,
    ];
    for a in values {
        assert_eq!(number(a).positive(), a > 0.0, "{a}");
        assert_eq!(number(a).finite(), a.is_finite(), "{a}");
        for b in values {
            assert_eq!(number(a).at_most(&number(b)), a.total_cmp(&b).is_le(), "{a} {b}");
        }
    }
    assert_eq!(float(zero()), 0.0);
    assert!(float(zero()).is_sign_positive());
}

#[test]
fn durations_round_to_the_second() {
    assert_eq!(compact_duration(0), "0s");
    assert_eq!(compact_duration(499_999_999), "0s");
    assert_eq!(compact_duration(500_000_000), "1s");
    assert_eq!(compact_duration(59 * SECOND), "59s");
    assert_eq!(compact_duration(3599 * SECOND), "59m59s");
    assert_eq!(compact_duration(7325 * SECOND), "2h02m");
}

#[test]
fn progress_starts_without_an_estimate_and_ends_full() {
    assert_eq!(
        progress_line(0, 4, 0),
        "[----------------------------] 0/4 cells  elapsed 0s  eta calculating"
    );
    assert_eq!(
        progress_line(4, 4, 120 * SECOND as u64),
        "[############################] 4/4 cells  elapsed 2m00s  eta 0s"
    );
    assert_eq!(
        progress_line(0, 0, 0),
        "[----------------------------] 0/0 cells  elapsed 0s  eta calculating"
    );
}

#[test]
fn lists_are_joined_and_repeated() {
    assert_eq!(join(&strings(&["a", "b", "c"]), ", "), "a, b, c");
    assert_eq!(join(&strings(&["a"]), ", "), "a");
    assert_eq!(join(&Vec::new(), ", "), "");
    assert_eq!(repeat('-', 3), "---");
    assert_eq!(repeat('-', 0), "");
    assert_eq!(show_list(&vec![1, 2, 4]), format!("{:?}", [1, 2, 4]));
    assert_eq!(show_list(&Vec::new()), "[]");
    assert_eq!(
        sorted_set(&strings(&["b", "a", "b", "B", "a"])),
        strings(&["B", "a", "b"])
    );
}

#[test]
fn tables_are_aligned() {
    let headers = strings(&["model", "MB/s", "status"]);
    let rows = vec![strings(&["gpt2", "12.5", "verified"]), strings(&["llama-3", "7.0", "ok"])];
    assert_eq!(
        table_lines(&headers, &rows, 1, false),
        vec![
            "model    MB/s  status",
            "-------  ----  --------",
            "gpt2     12.5  verified",
            "llama-3   7.0  ok",
        ]
    );
    assert_eq!(
        table_lines(&headers, &rows, 1, true),
        vec![
            "model    MB/s    status",
            "-------  ----  --------",
            "gpt2     12.5  verified",
            "llama-3   7.0        ok",
        ]
    );
}

#[test]
fn engines_become_columns() {
    let headers = strings(&["model", "engine", "MB/s", "ns/B", "tokens", "status"]);
    let rows = vec![
        strings(&["m2", "b", "1.0", "9.00", "3", "verified"]),
        strings(&["m1", "b", "2.0", "8.00", "4", "id mismatch"]),
        strings(&["m1", "a", "-", "-", "-", "unsupported: no"]),
    ];
    let (h, r) = pivot_engine_columns(&headers, &rows);
    assert_eq!(h, strings(&["model", "a", "b"]));
    assert_eq!(r.len(), 2);
    assert_eq!(r[0][0], "m1");
    assert_eq!(r[0][2], "2.0 MB/s · 8.00 ns/B · 4 tokens · id mismatch");
    assert_eq!(r[1][0], "m2");
    assert_eq!(r[1][1], "-");
    assert_eq!(r[1][2], "1.0 MB/s · 9.00 ns/B · 3 tokens · verified");
}

#[test]
fn engines_become_columns_whatever_the_order_of_the_rows() {
    let headers = strings(&["model", "engine", "MB/s"]);
    let mut rows = vec![
        strings(&["m1", "a", "1.0"]),
        strings(&["m2", "a", "2.0"]),
        strings(&["m1", "b", "3.0"]),
    ];
    let turned = pivot_engine_columns(&headers, &rows);
    rows.rotate_left(1);
    assert_eq!(pivot_engine_columns(&headers, &rows), turned);
    rows.reverse();
    assert_eq!(pivot_engine_columns(&headers, &rows), turned);
}

#[test]
fn values_carry_their_units() {
    for (header, value, shown) in [
        ("corpora", "2/2", "2/2"),
        ("status", "ok", "ok"),
        ("vs other", "×2.00", "×2.00"),
        ("1T MB/s [pad off]", "3.0", "1T 3.0 MB/s"),
        ("max MB/s [pad off]", "9.0", "max 9.0 MB/s"),
        ("median MB/s", "3.0", "3.0 MB/s"),
        ("ns/token", "4.0", "4.0 ns/token"),
        ("ns/B", "4.0", "4.0 ns/B"),
        ("p50 us", "1.00", "p50 1.00 us"),
        ("p99 us", "2.00", "p99 2.00 us"),
        ("samples", "10", "10 samples"),
        ("tokens", "10", "10 tokens"),
        ("workers", "4", "4"),
    ] {
        assert_eq!(label_value(header, value), shown, "{header}");
    }
}

#[test]
fn widths_double_up_to_the_cores() {
    assert_eq!(thread_counts(1), vec![1]);
    assert_eq!(thread_counts(0), vec![1]);
    assert_eq!(thread_counts(8), vec![1, 2, 4, 8]);
    assert_eq!(thread_counts(10), vec![1, 2, 4, 8]);
    assert_eq!(perf_cores(Some(" 6\n"), Some(10)), 6);
    assert_eq!(perf_cores(Some("0"), Some(10)), 10);
    assert_eq!(perf_cores(Some("many"), Some(10)), 10);
    assert_eq!(perf_cores(None, Some(3)), 3);
    assert_eq!(perf_cores(None, None), 1);
}

fn parsed(line: &[&str]) -> Args {
    match Args::try_parse_from(line) {
        Ok(args) => args,
        Err(e) => panic!("{e:?}"),
    }
}

#[test]
fn a_run_says_what_it_does() {
    let extent = Extent {
        native: 3,
        scripted: 1,
        models: 2,
        corpora: 5,
    };
    let sweep = vec![1, 2, 4];
    let full = parsed(&["tokbench"]);
    assert_eq!(
        banner(&full, extent, &sweep),
        "tokbench: 4 engine(s) [3 native, 1 scripted] × 2 model(s) × 5 corpus/corpora = 10 cells, 5 reps each"
    );
    let scaling = parsed(&["tokbench", "measure", "scaling", "--reps", "7"]);
    assert_eq!(
        banner(&scaling, extent, &sweep),
        "tokbench measure scaling: 4 engine(s) × 2 model(s) × 5 corpus/corpora, thread counts [1, 2, 4], 7 reps"
    );
    let latency = parsed(&["tokbench", "measure", "latency"]);
    assert_eq!(
        measurement_detail(&latency, &sweep),
        "up to 1000 distinct samples each"
    );
    let memory = parsed(&["tokbench", "measure", "memory", "--threads", "4"]);
    assert_eq!(
        measurement_detail(&memory, &sweep),
        "4 worker(s), auto parallelism, median of 5 isolated runs"
    );
    let encode = parsed(&["tokbench", "measure", "encode"]);
    assert_eq!(measurement_detail(&encode, &sweep), "5 reps each");
}
