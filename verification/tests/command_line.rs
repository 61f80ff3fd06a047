use tokbench::chunk::latency_documents;
use tokbench::cli::{args_of, read_number, Args, ArgsError, CliCommand, MeasureCommand, Parsed};

#[test]
fn parses_each_atomic_measurement() {
    for (name, expected) in [
        ("encode", MeasureCommand::Encode),
        ("decode", MeasureCommand::Decode),
        ("latency", MeasureCommand::Latency),
        ("scaling", MeasureCommand::Scaling),
        ("memory", MeasureCommand::Memory),
    ] {
        let args = Args::try_parse_from(&[
            "tokbench", "measure", name, "--engine", "pipeline", "--model", "gpt2", "--corpus",
            "eng_Latn",
        ])
        .unwrap();

        assert!(matches!(
            args.command,
            Some(CliCommand::Measure { command }) if command == expected
        ));
        assert_eq!(args.engine, ["pipeline"]);
        assert!(args.compare_to.is_none());
        assert_eq!(args.model, ["gpt2"]);
        assert_eq!(args.corpus, ["eng_Latn"]);
    }
}

#[test]
fn parses_comparison_engine() {
    let args = Args::try_parse_from(&[
        "tokbench",
        "measure",
        "encode",
        "--engine",
        "pipeline",
        "--engine",
        "tiktoken",
        "--compare-to",
        "hf-tokenizers",
    ])
    .unwrap();

    assert_eq!(args.engine, ["pipeline", "tiktoken"]);
    assert_eq!(args.compare_to.as_deref(), Some("hf-tokenizers"));
}

#[test]
fn parses_all_engines_selector() {
    let args =
        Args::try_parse_from(&["tokbench", "measure", "encode", "--engine", "all"]).unwrap();

    assert_eq!(args.engine, ["all"]);
    assert!(args.model.is_empty());
    assert!(args.corpus.is_empty());
}

#[test]
fn parses_pipeline_cache_capacity_including_zero() {
    let args = Args::try_parse_from(&[
        "tokbench",
        "measure",
        "encode",
        "--engine",
        "pipeline",
        "--cache-capacity",
        "0",
    ])
    .unwrap();

    assert_eq!(args.cache_capacity, Some(0));
}

#[test]
fn parses_scaling_measurement_controls() {
    let args = Args::try_parse_from(&[
        "tokbench",
        "measure",
        "scaling",
        "--engine",
        "pipeline",
        "--reps",
        "7",
        "--scaling-mode",
        "independent-instances",
    ])
    .unwrap();

    assert_eq!(args.reps, 7);
    assert_eq!(args.scaling_mode, "independent-instances");
}

#[test]
fn parses_memory_worker_controls() {
    let args = Args::try_parse_from(&[
        "tokbench",
        "measure",
        "memory",
        "--engine",
        "pipeline",
        "--corpus",
        "eng_Latn",
        "--threads",
        "8",
        "--scaling-mode",
        "independent-instances",
    ])
    .unwrap();

    assert_eq!(args.threads, 8);
    assert_eq!(args.scaling_mode, "independent-instances");
}

#[test]
fn latency_samples_are_capped_by_available_documents() {
    let documents = latency_documents("abcdefghijkl", 4, 1_000);
    assert_eq!(documents, ["abcd", "efgh", "ijkl"]);
    assert_eq!(documents.len() - 1, 2);

    assert_eq!(latency_documents("abcdefghijkl", 4, 1).len(), 2);
}

#[test]
fn keeps_the_existing_full_run_cli() {
    let args = Args::try_parse_from(&["tokbench", "--no-memory", "--no-decode"]).unwrap();

    assert!(args.command.is_none());
    assert!(args.no_memory);
    assert!(args.no_decode);
}

// ---------------------------------------------------------------------------

#[test]
fn every_option_has_its_default() {
    let a = Args::try_parse_from(&["tokbench"]).unwrap();
    assert!(a.command.is_none());
    assert_eq!((a.models.as_str(), a.corpora.as_str()), ("data/models", "data/fixtures"));
    assert_eq!(a.reps, 5);
    assert!(!a.no_warmup && !a.open && !a.no_memory && !a.no_decode && !a.reverse_scaling);
    assert_eq!(a.cache_capacity, None);
    assert!(a.engine.is_empty() && a.latency.is_empty() && a.scaling.is_empty());
    assert_eq!(a.out, "tokenizer_bench_results.json");
    assert_eq!(a.python, "python3");
    assert_eq!((a.latency_bytes, a.latency_samples), (512, 1000));
    assert_eq!((a.max_threads, a.threads), (None, 1));
    assert_eq!((a.scaling_mode.as_str(), a.padding.as_str()), ("auto", "both"));
    assert_eq!(a.binary_sizes, "binary_sizes.json");
    assert_eq!(a.package_sizes, "package_sizes.json");
    assert_eq!((a.memory, a.memory_model, a.memory_corpus), (None, None, None));
    assert_eq!(a.memory_threads, None);
}

#[test]
fn every_option_can_be_given() {
    let a = Args::try_parse_from(&[
        "tokbench", "--models", "m", "--corpora", "c", "--reps", "3", "--no-warmup",
        "--cache-capacity", "9", "--engine", "e", "--compare-to", "o", "--model", "x", "--corpus",
        "y", "--out", "z.json", "--open", "--python", "py", "--no-memory", "--no-decode",
        "--latency", "l1", "--latency", "l2", "--latency-bytes", "64", "--latency-samples", "10",
        "--scaling", "s", "--max-threads", "8", "--threads", "2", "--reverse-scaling",
        "--scaling-mode", "native-threads", "--padding", "off", "--binary-sizes", "b",
        "--package-sizes", "p", "--memory", "n", "--memory-model", "mm", "--memory-corpus", "mc",
        "--memory-threads", "4",
    ])
    .unwrap();
    assert_eq!((a.models.as_str(), a.corpora.as_str(), a.reps), ("m", "c", 3));
    assert!(a.no_warmup && a.open && a.no_memory && a.no_decode && a.reverse_scaling);
    assert_eq!(a.cache_capacity, Some(9));
    assert_eq!(a.engine, ["e"]);
    assert_eq!(a.compare_to.as_deref(), Some("o"));
    assert_eq!((a.model, a.corpus), (vec!["x".to_string()], vec!["y".to_string()]));
    assert_eq!((a.out.as_str(), a.python.as_str()), ("z.json", "py"));
    assert_eq!(a.latency, ["l1", "l2"]);
    assert_eq!((a.latency_bytes, a.latency_samples), (64, 10));
    assert_eq!(a.scaling, ["s"]);
    assert_eq!((a.max_threads, a.threads, a.memory_threads), (Some(8), 2, Some(4)));
    assert_eq!((a.scaling_mode.as_str(), a.padding.as_str()), ("native-threads", "off"));
    assert_eq!((a.binary_sizes.as_str(), a.package_sizes.as_str()), ("b", "p"));
    assert_eq!(a.memory.as_deref(), Some("n"));
    assert_eq!(a.memory_model.as_deref(), Some("mm"));
    assert_eq!(a.memory_corpus.as_deref(), Some("mc"));
}

#[test]
fn global_options_stand_on_either_side_of_the_subcommand() {
    let before = Args::try_parse_from(&["tokbench", "--reps", "2", "measure", "decode"]).unwrap();
    let after = Args::try_parse_from(&["tokbench", "measure", "decode", "--reps", "2"]).unwrap();
    assert_eq!((before.reps, after.reps), (2, 2));
    assert!(before.command.is_some() && after.command.is_some());
    // The corpora of the full run's extra passes are not global.
    assert!(matches!(
        Args::try_parse_from(&["tokbench", "measure", "decode", "--scaling", "x"]),
        Err(ArgsError::Usage(_))
    ));
}

#[test]
fn a_line_that_does_not_fit_is_refused() {
    for line in [
        &["tokbench", "--nonsense"][..],
        &["tokbench", "measure"],
        &["tokbench", "measure", "everything"],
        &["tokbench", "--reps"],
        &["tokbench", "--reps", "1", "--reps", "2"],
    ] {
        match Args::try_parse_from(line) {
            Err(ArgsError::Usage(u)) => assert_eq!(u.code, 2, "{line:?}"),
            other => panic!("{line:?}: {other:?}"),
        }
    }
    match Args::try_parse_from(&["tokbench", "--help"]) {
        Err(ArgsError::Usage(u)) => {
            assert_eq!(u.code, 0);
            assert!(u.text.contains("--scaling-mode") && !u.text.contains("--memory-model"));
            assert!(u.text.contains("Benchmark tokenizer engines through one shared, verified"));
            assert!(u.text.contains("[possible values: off, longest, both]"));
            assert!(u.text.contains("--cache-capacity <CACHE_CAPACITY>"));
            assert!(u.text.contains("Both by default."));
        }
        other => panic!("{other:?}"),
    }
}

#[test]
fn a_group_without_a_family_shows_its_help() {
    match Args::try_parse_from(&["tokbench", "measure"]) {
        Err(ArgsError::Usage(u)) => {
            assert!(u.text.starts_with("Run exactly one measurement family"));
            assert!(u.text.contains("Live heap held by a loaded and warmed tokenizer"));
        }
        other => panic!("{other:?}"),
    }
}

#[test]
fn values_are_checked_in_the_order_of_the_line() {
    for (line, code) in [
        (&["tokbench", "--reps", "many", "--help"][..], 2),
        (&["tokbench", "--help", "--reps", "many"], 0),
        (&["tokbench", "--padding", "left", "--help"], 2),
        (&["tokbench", "--models", "", "--help"], 2),
    ] {
        match Args::try_parse_from(line) {
            Err(ArgsError::Usage(u)) => assert_eq!(u.code, code, "{line:?}"),
            other => panic!("{line:?}: {other:?}"),
        }
    }
}

#[test]
fn a_path_is_not_empty() {
    for option in [
        "models", "corpora", "out", "binary-sizes", "package-sizes", "memory-model", "memory-corpus",
    ] {
        let flag = format!("--{option}=");
        assert!(matches!(
            Args::try_parse_from(&["tokbench", &flag]),
            Err(ArgsError::Usage(_))
        ));
    }
    assert_eq!(Args::try_parse_from(&["tokbench", "--python="]).unwrap().python, "");
}

#[test]
fn a_number_is_read_or_its_fault_is_said() {
    assert_eq!(read_number("+7", 1), Ok(7));
    assert_eq!(read_number("0", 0), Ok(0));
    for (text, why) in [
        ("", "cannot parse integer from empty string"),
        ("7x", "invalid digit found in string"),
        ("-7", "invalid digit found in string"),
        ("99999999999999999999999", "number too large to fit in target type"),
        ("99999999999999999999999x", "number too large to fit in target type"),
        ("x99999999999999999999999", "invalid digit found in string"),
        ("+", "invalid digit found in string"),
        ("0", "number would be zero for non-zero type"),
    ] {
        assert_eq!(read_number(text, 1), Err(why.to_string()));
    }
}

#[test]
fn a_value_an_option_does_not_take_is_named() {
    for (option, value) in [
        ("reps", "many"),
        ("cache-capacity", "1.5"),
        ("latency-bytes", "x"),
        ("latency-samples", "99999999999999999999999"),
        ("max-threads", "0"),
        ("threads", "0"),
        ("scaling-mode", "fast"),
        ("padding", "left"),
        ("memory-threads", "0"),
    ] {
        let flag = format!("--{option}");
        match Args::try_parse_from(&["tokbench", &flag, value]) {
            Err(ArgsError::Usage(u)) => {
                assert_eq!(u.code, 2);
                assert!(u.text.contains(&format!("invalid value '{value}' for '{flag}")));
            }
            other => panic!("{option}: {other:?}"),
        }
    }
}

#[test]
fn the_first_value_in_the_table_that_is_not_taken_is_named() {
    let mut values: Vec<Vec<String>> = vec![Vec::new(); 29];
    values[28] = vec!["0".to_string()];
    values[22] = vec!["left".to_string()];
    values[1] = vec![String::new()];
    for (at, option, value) in [(1, "corpora", ""), (22, "padding", "left"), (28, "memory-threads", "0")] {
        match args_of(&Parsed { family: None, values: values.clone() }) {
            Err(ArgsError::Value { option: o, value: v }) => assert_eq!((o, v.as_str()), (option, value)),
            other => panic!("{option}: {other:?}"),
        }
        values[at].clear();
    }
    assert!(args_of(&Parsed { family: None, values: values.clone() }).is_ok());
    match args_of(&Parsed { family: Some("other".into()), values }) {
        Err(ArgsError::Value { option, value }) => assert_eq!((option, value.as_str()), ("measure", "other")),
        other => panic!("{other:?}"),
    }
}

#[test]
fn values_are_read_by_their_place() {
    let mut values: Vec<Vec<String>> = vec![Vec::new(); 29];
    values[2] = vec!["+12".to_string()];
    values[3] = vec!["true".to_string()];
    values[5] = vec!["a".to_string(), "b".to_string()];
    let a = args_of(&Parsed { family: Some("memory".into()), values }).unwrap();
    assert_eq!(a.reps, 12);
    assert!(a.no_warmup);
    assert_eq!(a.engine, ["a", "b"]);
    assert_eq!(a.command, Some(CliCommand::Measure { command: MeasureCommand::Memory }));
    assert!(args_of(&Parsed { family: Some("other".into()), values: vec![] }).is_err());
}
