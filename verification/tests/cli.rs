use jsonl_peek::cli::{
    failure_message, is_standard_input, read_arguments, source_name, usage_message, Request, USAGE,
};
use jsonl_peek::scan::{HeadScan, SampleScan, SchemaScan, StatsScan};
use jsonl_peek::{parse, SchemaOptions, StatsOptions, Value};

/// Six lines: three objects, an array, a blank line and a broken one.
const FIXTURE: &str = "{\"id\":1,\"tags\":[\"a\",\"b\"]}\n\
{\"id\":2,\"tags\":[\"b\",\"c\"]}\n\
\n\
{\"id\":3,\"tags\":[]}\n\
{\"id\":4,,}\n\
[1,2,3]\n";

fn request(args: &[&str]) -> Request {
    let args: Vec<String> = args.iter().map(|a| a.to_string()).collect();
    let rates: Vec<Option<u64>> = args
        .iter()
        .map(|a| a.parse::<f64>().ok().map(f64::to_bits))
        .collect();
    read_arguments(&args, &rates)
}

fn raw_lines(input: &[u8]) -> Vec<&[u8]> {
    input.split_inclusive(|b| *b == b'\n').collect()
}

/// What a command prints for `input`, or what it says of its arguments.
fn run(args: &[&str], input: &str) -> Result<String, String> {
    let input = input.as_bytes();
    match request(args) {
        Request::Help => Ok(USAGE.to_string()),
        Request::Usage(words) => Err(usage_message(&words)),
        Request::Head { n, .. } => {
            let mut scan = HeadScan::new(n);
            let mut out = Vec::new();
            for raw in raw_lines(input) {
                if scan.is_done() {
                    break;
                }
                out.extend(scan.feed(raw));
            }
            Ok(String::from_utf8(out).unwrap())
        }
        Request::Sample { n, seed, .. } => {
            let mut scan = SampleScan::new(n, seed.unwrap_or(9));
            for raw in raw_lines(input) {
                scan.feed(raw);
            }
            Ok(String::from_utf8(scan.finish()).unwrap())
        }
        Request::Stats { fields, top, max_errors, json, file } => {
            let options = StatsOptions { fields, max_issues: max_errors, ..StatsOptions::default() };
            let mut scan = StatsScan::new(options);
            for raw in raw_lines(input) {
                scan.feed(raw);
            }
            Ok(scan.finish(source_name(&file), top, json))
        }
        Request::Schema { depth, min_rate, json, .. } => {
            let options = SchemaOptions { max_depth: depth, ..SchemaOptions::default() };
            let mut scan = SchemaScan::new(options);
            for raw in raw_lines(input) {
                scan.feed(raw);
            }
            Ok(scan.finish(min_rate, json))
        }
    }
}

#[test]
fn head_prints_the_first_n_lines_in_order() {
    let output = run(&["head", "-n", "2", "sample.jsonl"], FIXTURE).unwrap();
    let lines: Vec<&str> = output.lines().collect();
    assert_eq!(lines.len(), 2);
    assert!(lines[0].contains("\"id\":1"));
    assert!(lines[1].contains("\"id\":2"));
}

#[test]
fn head_stops_at_end_of_file_when_default_count_exceeds_it() {
    let output = run(&["head", "sample.jsonl"], FIXTURE).unwrap();
    assert_eq!(output.lines().count(), 6);
}

#[test]
fn sample_with_a_seed_is_deterministic_and_a_subset() {
    let args = ["sample", "-n", "3", "--seed", "42", "sample.jsonl"];
    let first = run(&args, FIXTURE).unwrap();
    let second = run(&args, FIXTURE).unwrap();
    assert_eq!(first, second);

    let source_lines: Vec<&str> = FIXTURE.lines().filter(|l| !l.trim().is_empty()).collect();
    let sampled: Vec<&str> = first.lines().collect();
    assert_eq!(sampled.len(), 3);
    for line in &sampled {
        assert!(source_lines.contains(line), "unexpected line in sample: {}", line);
    }
}

#[test]
fn sample_keeps_the_original_file_order() {
    // Sampling every non-blank line must reproduce the file's order exactly.
    let output = run(&["sample", "-n", "5", "--seed", "1", "sample.jsonl"], FIXTURE).unwrap();
    let sampled: Vec<&str> = output.lines().collect();
    let source_lines: Vec<&str> = FIXTURE.lines().filter(|l| !l.trim().is_empty()).collect();
    assert_eq!(sampled, source_lines);
}

#[test]
fn stats_text_report_counts_lines_correctly() {
    let report = run(&["stats", "sample.jsonl"], FIXTURE).unwrap();
    assert!(report.contains("lines"));
    assert!(report.contains("blank 1"));
    assert!(report.contains("invalid 1"));
    assert!(report.contains("valid 4"));
    assert!(report.contains("invalid lines (1 total, showing 1)"));
}

#[test]
fn stats_json_report_matches_the_fixture() {
    let output = run(&["stats", "--json", "sample.jsonl"], FIXTURE).unwrap();
    let report = parse(&output).expect("stats --json must emit valid JSON");
    assert_eq!(report.get("lines").and_then(Value::as_i64), Some(6));
    assert_eq!(report.get("blank").and_then(Value::as_i64), Some(1));
    assert_eq!(report.get("invalid").and_then(Value::as_i64), Some(1));
    assert_eq!(report.get("valid").and_then(Value::as_i64), Some(4));
    assert_eq!(report.get("objects").and_then(Value::as_i64), Some(3));
}

#[test]
fn stats_field_option_profiles_a_fan_out_path() {
    let report = run(&["stats", "--field", "tags[]", "sample.jsonl"], FIXTURE).unwrap();
    assert!(report.contains("field tags[]"));
    assert!(report.contains("3 distinct values"));
}

#[test]
fn schema_text_report_lists_paths_and_skipped_lines() {
    let report = run(&["schema", "sample.jsonl"], FIXTURE).unwrap();
    assert!(report.starts_with("4 records, depth 3"));
    assert!(report.contains("tags[]"));
    assert!(report.ends_with("\n\n1 unparseable lines skipped\n"));
}

#[test]
fn schema_json_report_matches_the_fixture() {
    let output = run(&["schema", "--json", "sample.jsonl"], FIXTURE).unwrap();
    let report = parse(&output).expect("schema --json must emit valid JSON");
    assert_eq!(report.get("records").and_then(Value::as_i64), Some(4));
    assert!(report.get("paths").and_then(|p| p.get("id")).is_some());
}

#[test]
fn unknown_command_is_a_usage_error() {
    let words = run(&["frobnicate"], "").unwrap_err();
    assert!(words.contains("unknown command"));
    assert_eq!(words, format!("jsonl-peek: unknown command 'frobnicate'\n\n{}", USAGE));
}

#[test]
fn missing_option_value_is_a_usage_error() {
    let words = run(&["head", "-n"], "").unwrap_err();
    assert!(words.contains("-n requires a value"));
}

#[test]
fn reads_from_stdin_when_no_file_is_given() {
    match request(&["head", "-n", "1"]) {
        Request::Head { file, .. } => assert!(is_standard_input(&file)),
        _ => panic!("head was asked for"),
    }
    let output = run(
        &["head", "-n", "1"],
        "{\"from\":\"stdin\"}\n{\"from\":\"ignored\"}\n",
    )
    .unwrap();
    assert_eq!(output, "{\"from\":\"stdin\"}\n");
}

fn complaint(args: &[&str]) -> String {
    match request(args) {
        Request::Usage(words) => words,
        _ => panic!("these arguments make no sense"),
    }
}

#[test]
fn usage_errors_name_the_problem() {
    assert_eq!(complaint(&[]), "no command given");
    assert_eq!(complaint(&["head", "--loud"]), "head: unknown option '--loud'");
    assert_eq!(complaint(&["sample", "a", "b"]), "sample: too many arguments");
    assert_eq!(complaint(&["stats", "-x"]), "stats: unknown option '-x'");
    assert_eq!(complaint(&["schema", "a", "-"]), "schema: too many arguments");
    assert_eq!(complaint(&["sample", "--seed"]), "--seed requires a value");
    assert_eq!(
        complaint(&["head", "-n", "many"]),
        "-n expects a number, got 'many'"
    );
    assert_eq!(
        complaint(&["sample", "--seed", "-1"]),
        "--seed expects a number, got '-1'"
    );
    assert_eq!(
        complaint(&["sample", "--seed", "18446744073709551616"]),
        "--seed expects a number, got '18446744073709551616'"
    );
    assert_eq!(
        complaint(&["stats", "--field", "a."]),
        "invalid field path 'a.': empty path segment at offset 2"
    );
    assert_eq!(complaint(&["stats", "--field"]), "--field requires a value");
    assert_eq!(complaint(&["stats", "--top"]), "--top requires a value");
    assert_eq!(
        complaint(&["stats", "--max-errors", "x"]),
        "--max-errors expects a number, got 'x'"
    );
    assert_eq!(
        complaint(&["schema", "--min-rate", "often"]),
        "--min-rate expects a number, got 'often'"
    );
    assert_eq!(complaint(&["schema", "--min-rate"]), "--min-rate requires a value");
    assert_eq!(complaint(&["schema", "--depth", ""]), "--depth expects a number, got ''");
}

#[test]
fn help_comes_before_later_mistakes() {
    for args in [
        &["-h"][..],
        &["--help"],
        &["head", "-h", "--loud"],
        &["sample", "--help"],
        &["stats", "--json", "-h"],
        &["schema", "f", "--help", "g"],
    ] {
        assert_eq!(run(args, "").unwrap(), USAGE);
    }
}

#[test]
fn options_reach_the_request() {
    match request(&["sample", "--seed", "18446744073709551615", "f", "-n", "+4"]) {
        Request::Sample { n, seed, file } => {
            assert_eq!((n, seed), (4, Some(u64::MAX)));
            assert_eq!(source_name(&file), "f");
            assert!(!is_standard_input(&file));
        }
        _ => panic!("sample was asked for"),
    }
    match request(&["stats", "--top", "3", "--field", "a", "-", "--field", "b[]", "--json"]) {
        Request::Stats { fields, top, max_errors, json, file } => {
            let sources: Vec<&str> = fields.iter().map(|f| f.source()).collect();
            assert_eq!(sources, vec!["a", "b[]"]);
            assert_eq!((top, max_errors, json), (3, 10, true));
            assert!(is_standard_input(&file));
        }
        _ => panic!("stats was asked for"),
    }
    match request(&["schema", "--min-rate", "0.25", "--depth", "7"]) {
        Request::Schema { depth, min_rate, json, file } => {
            assert_eq!((depth, f64::from_bits(min_rate), json), (7, 0.25, false));
            assert_eq!(source_name(&file), "-");
        }
        _ => panic!("schema was asked for"),
    }
}

#[test]
fn the_last_of_a_repeated_option_counts() {
    match request(&["head", "-n", "1", "-n", "2"]) {
        Request::Head { n, .. } => assert_eq!(n, 2),
        _ => panic!("head was asked for"),
    }
}

#[test]
fn failures_name_their_context() {
    assert_eq!(
        failure_message("/no/such/file.jsonl", "not found"),
        "jsonl-peek: /no/such/file.jsonl: not found\n"
    );
}

#[test]
fn head_of_no_lines_is_nothing() {
    assert_eq!(run(&["head", "-n", "0"], FIXTURE).unwrap(), "");
}

#[test]
fn head_normalises_line_endings() {
    let mut scan = HeadScan::new(3);
    assert_eq!(scan.feed(b"\xEF\xBB\xBFa\r\n"), b"a\n");
    assert_eq!(scan.feed(b"\xEF\xBB\xBFb"), b"\xEF\xBB\xBFb\n");
    assert!(!scan.is_done());
    assert_eq!(scan.feed(b"\n"), b"\n");
    assert!(scan.is_done());
}

#[test]
fn schema_without_skipped_lines_says_nothing_of_them() {
    let report = run(&["schema", "--depth", "1"], "{\"a\":1}\n").unwrap();
    assert!(!report.contains("unparseable"));
    assert!(run(&["schema", "--min-rate", "0.6"], "{\"a\":1}\n{}\n")
        .unwrap()
        .ends_with("types\n"));
}

#[test]
fn stats_limits_the_broken_lines_that_it_shows() {
    let report = run(&["stats", "--max-errors", "1"], "x\ny\n").unwrap();
    assert!(report.contains("invalid lines (2 total, showing 1)"));
}

#[test]
fn stats_scan_agrees_with_reading_the_whole_file() {
    let whole = jsonl_peek::Stats::from_reader(FIXTURE.as_bytes(), StatsOptions::default());
    let scanned = run(&["stats", "sample.jsonl"], FIXTURE).unwrap();
    assert_eq!(scanned, whole.report_text("sample.jsonl", 10));
}
