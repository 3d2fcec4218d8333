use jsonl_peek::lines::Line;
use jsonl_peek::render::{human_bytes, percent, thousands, truncate};
use jsonl_peek::stats::KeyStat;
use jsonl_peek::{parse, FieldPath, Stats, StatsOptions, Value};

const SAMPLE: &str = "{\"role\":\"user\",\"tokens\":12,\"meta\":{\"src\":\"web\"}}\n\
{\"role\":\"assistant\",\"tokens\":40,\"meta\":{\"src\":\"web\"}}\n\
\n\
{\"role\":\"user\",\"tokens\":null}\n\
{\"role\":\"user\",,}\n\
[1,2,3]\n";

fn stats_for(input: &str, fields: &[&str]) -> Stats {
    let options = StatsOptions {
        fields: fields
            .iter()
            .map(|f| FieldPath::parse(f).unwrap())
            .collect(),
        ..StatsOptions::default()
    };
    Stats::from_reader(input.as_bytes(), options)
}

#[test]
fn counts_lines_and_classifies_them() {
    let s = stats_for(SAMPLE, &[]);
    assert_eq!(s.lines, 6);
    assert_eq!(s.blank, 1);
    assert_eq!(s.invalid, 1);
    assert_eq!(s.valid, 4);
    assert_eq!(s.objects, 3);
    assert_eq!(s.bytes, SAMPLE.len() as u64);
    assert_eq!(s.types.get("object"), Some(&3));
    assert_eq!(s.types.get("array"), Some(&1));
}

#[test]
fn reports_the_position_of_broken_lines() {
    let s = stats_for(SAMPLE, &[]);
    assert_eq!(s.issues.len(), 1);
    let issue = &s.issues[0];
    assert_eq!(issue.line, 5);
    assert_eq!(issue.column, 16);
    assert_eq!(issue.reason, "expected a quoted object key");
}

#[test]
fn tracks_keys_and_their_types() {
    let s = stats_for(SAMPLE, &[]);
    let role = s.keys.get("role").unwrap();
    assert_eq!(role.count, 3);
    assert_eq!(role.types.get("string"), Some(&3));
    let tokens = s.keys.get("tokens").unwrap();
    assert_eq!(tokens.count, 3);
    assert_eq!(tokens.types.get("int"), Some(&2));
    assert_eq!(tokens.types.get("null"), Some(&1));
    // Nested keys are not top level keys.
    assert!(!s.keys.contains_key("src"));
    assert_eq!(s.keys.get("meta").unwrap().count, 2);
}

#[test]
fn profiles_a_nested_field() {
    let s = stats_for(SAMPLE, &["meta.src"]);
    let field = &s.fields[0];
    assert_eq!(field.records_matched, 2);
    assert_eq!(field.records_missing, 2);
    assert_eq!(field.values, 2);
    assert_eq!(field.top(5), vec![("\"web\"", 2)]);
}

#[test]
fn profiles_a_fan_out_field() {
    let input = [
        "{\"messages\":[{\"role\":\"system\"},{\"role\":\"user\"}]}\n",
        "{\"messages\":[{\"role\":\"user\"}]}\n",
        "{\"messages\":[]}\n",
    ]
    .concat();
    let s = stats_for(&input, &["messages[].role"]);
    let field = &s.fields[0];
    assert_eq!(field.records_matched, 2);
    assert_eq!(field.records_missing, 1);
    assert_eq!(field.values, 3);
    assert_eq!(field.top(5), vec![("\"user\"", 2), ("\"system\"", 1)]);
}

#[test]
fn caps_the_key_table() {
    let mut input = String::new();
    for i in 0..50 {
        input.push_str("{\"k");
        input.push_str(&i.to_string());
        input.push_str("\":1}\n");
    }
    let options = StatsOptions {
        max_keys: 10,
        ..StatsOptions::default()
    };
    let s = Stats::from_reader(input.as_bytes(), options);
    assert_eq!(s.keys.len(), 10);
    assert_eq!(s.keys_dropped, 40);
    assert!(s.report_text("x", 5).contains("not tracked"));
}

#[test]
fn caps_the_issue_list_but_not_the_count() {
    let input = "oops\n".repeat(25);
    let options = StatsOptions {
        max_issues: 3,
        ..StatsOptions::default()
    };
    let s = Stats::from_reader(input.as_bytes(), options);
    assert_eq!(s.invalid, 25);
    assert_eq!(s.issues.len(), 3);
}

#[test]
fn flags_invalid_utf8() {
    let input: Vec<u8> = vec![b'{', b'"', b'a', b'"', b':', b'"', 0xFF, b'"', b'}', b'\n'];
    let s = Stats::from_reader(&input[..], StatsOptions::default());
    assert_eq!(s.invalid, 1);
    assert_eq!(s.issues[0].reason, "invalid UTF-8");
    assert_eq!(s.issues[0].column, 7);
}

#[test]
fn text_report_is_readable() {
    let s = stats_for(SAMPLE, &["meta.src"]);
    let report = s.report_text("sample.jsonl", 5);
    assert!(report.contains("file    sample.jsonl"));
    assert!(report.contains("top level keys over 3 objects"));
    assert!(report.contains("field meta.src"));
    assert!(report.contains("line 5 col 16"));
}

#[test]
fn json_report_parses_back() {
    let s = stats_for(SAMPLE, &["meta.src"]);
    let report = s.report_json("sample.jsonl");
    let parsed = parse(&report).expect("report must be valid JSON");
    assert_eq!(parsed.get("lines").and_then(Value::as_i64), Some(6));
    assert_eq!(parsed.get("valid").and_then(Value::as_i64), Some(4));
    assert_eq!(
        parsed
            .get("keys")
            .and_then(|k| k.get("role"))
            .and_then(|r| r.get("count"))
            .and_then(Value::as_i64),
        Some(3)
    );
    assert_eq!(
        parsed
            .get("fields")
            .and_then(Value::as_array)
            .map(|f| f.len()),
        Some(1)
    );
}

#[test]
fn empty_input_reports_cleanly() {
    let s = stats_for("", &[]);
    assert_eq!(s.lines, 0);
    let report = s.report_text("-", 5);
    assert!(report.contains("lines"));
    assert!(!report.contains("line length"));
    assert!(parse(&s.report_json("-")).is_ok());
}

#[test]
fn helpers_format_numbers() {
    assert_eq!(thousands(0), "0");
    assert_eq!(thousands(999), "999");
    assert_eq!(thousands(1_000), "1,000");
    assert_eq!(thousands(1_234_567), "1,234,567");
    assert_eq!(human_bytes(512), "512 B");
    assert_eq!(human_bytes(2048), "2.0 KiB");
    assert_eq!(human_bytes(3 * 1024 * 1024), "3.0 MiB");
    assert_eq!(percent(1, 4), "25.0%");
    assert_eq!(percent(1, 0), "-");
    assert_eq!(truncate("short", 24), "short");
    assert_eq!(truncate("abcdef", 3), "ab~");
}

#[test]
fn library_example_counts_a_broken_line() {
    let s = stats_for("{\"role\":\"user\"}\n{\"role\":\"bot\"}\nbroken\n", &["role"]);
    assert_eq!(s.lines, 3);
    assert_eq!(s.valid, 2);
    assert_eq!(s.invalid, 1);
    assert_eq!(s.issues[0].line, 3);
    assert_eq!(s.fields[0].values, 2);
}

#[test]
fn stats_options_have_defaults() {
    let options = StatsOptions::default();
    assert_eq!(options.max_issues, 10);
    assert_eq!(options.max_keys, 512);
    assert_eq!(options.max_distinct, 10_000);
    assert!(options.fields.is_empty());
    assert_eq!(KeyStat::default().count, 0);
}

#[test]
fn stats_text_report_is_exact() {
    let s = stats_for(SAMPLE, &["meta.src"]);
    let expected = [
        "file    sample.jsonl\n",
        "lines              6   blank 1   invalid 1   valid 4\n",
        "bytes            160   (160 B)\n",
        "top level  object:3 array:1\n",
        "\nline length in bytes\n",
        "  min 7   p50 29   p90 52   p99 52   max 53   mean 30.8\n",
        "\ntop level keys over 3 objects\n",
        "  key                          count     rate  types\n",
        "  role                              3  100.0%  string:3\n",
        "  tokens                            3  100.0%  int:2 null:1\n",
        "  meta                              2   66.7%  object:2\n",
        "\nfield meta.src\n",
        "  present in 2 of 4 records (50.0%), 2 values, types string:2\n",
        "  1 distinct values\n",
        "             2  100.0%  \"web\"\n",
        "\ninvalid lines (1 total, showing 1)\n",
        "  line 5 col 16: expected a quoted object key\n",
    ]
    .concat();
    assert_eq!(s.report_text("sample.jsonl", 5), expected);
}

#[test]
fn stats_json_report_is_exact() {
    let s = stats_for("{\"a\":[1,\"x\"]}\n{\"a\":null}\n\nnope\n", &["a[]"]);
    let expected = [
        "{\"file\":\"d\\\"q\",\"lines\":4,\"bytes\":31,\"blank\":1,\"valid\":2,\"invalid\":1,\"objects\":2,",
        "\"line_length\":{\"min\":4,\"p50\":10,\"p90\":13,\"p99\":13,\"max\":13,\"mean\":9.0000},",
        "\"types\":{\"object\":2},",
        "\"keys\":{\"a\":{\"count\":2,\"types\":{\"array\":1,\"null\":1}}},",
        "\"fields\":[{\"path\":\"a[]\",\"records_matched\":1,\"records_missing\":1,\"values\":2,",
        "\"types\":{\"int\":1,\"string\":1},",
        "\"top\":[{\"value\":\"\\\"x\\\"\",\"count\":1},{\"value\":\"1\",\"count\":1}]}],",
        "\"issues\":[{\"line\":4,\"column\":1,\"reason\":\"invalid literal\"}]}",
    ]
    .concat();
    assert_eq!(s.report_json("d\"q"), expected);
}

#[test]
fn an_empty_file_has_no_line_lengths() {
    let s = stats_for("", &[]);
    assert!(s.report_json("-").contains("\"line_length\":null"));
    assert_eq!(
        s.report_text("-", 5),
        "file    -\nlines              0   blank 0   invalid 0   valid 0\nbytes              0   (0 B)\n"
    );
}

#[test]
fn the_first_broken_lines_are_kept() {
    let options = StatsOptions { max_issues: 2, ..StatsOptions::default() };
    let s = Stats::from_reader(b"{\n1\n]\n\n\"a\n", options);
    assert_eq!(s.invalid, 3);
    let kept: Vec<(u64, usize)> = s.issues.iter().map(|i| (i.line, i.column)).collect();
    assert_eq!(kept, vec![(1, 2), (3, 1)]);
}

#[test]
fn every_count_of_a_check_adds_up() {
    let s = stats_for(SAMPLE, &["role", "tokens", "[]"]);
    assert_eq!(s.lines, s.blank + s.valid + s.invalid);
    assert_eq!(s.lengths.count(), s.valid + s.invalid);
    let mut members = s.keys_dropped;
    for i in 0..s.keys.len() {
        members += s.keys.value_at(i).count;
    }
    assert_eq!(members, 8);
    for field in &s.fields {
        assert_eq!(field.records_matched + field.records_missing, s.valid);
        let mut values = field.distinct_dropped;
        for i in 0..field.distinct.len() {
            values += field.distinct.count_at(i);
        }
        assert_eq!(values, field.values);
    }
}

#[test]
fn tracked_keys_stay_exact_when_the_table_is_full() {
    let options = StatsOptions { max_keys: 2, ..StatsOptions::default() };
    let s = Stats::from_reader(
        b"{\"a\":1,\"b\":2}\n{\"c\":3,\"a\":\"x\"}\n{\"c\":4,\"b\":5,\"a\":6}\n",
        options,
    );
    assert_eq!(s.keys.get("a").unwrap().count, 3);
    assert_eq!(s.keys.get("a").unwrap().types.get("int"), Some(&2));
    assert_eq!(s.keys.get("b").unwrap().count, 2);
    assert!(s.keys.get("c").is_none());
    assert_eq!(s.keys_dropped, 2);
}

#[test]
fn tracked_values_stay_exact_when_the_table_is_full() {
    let options = StatsOptions {
        max_distinct: 2,
        fields: vec![FieldPath::parse("v").unwrap()],
        ..StatsOptions::default()
    };
    let s = Stats::from_reader(
        b"{\"v\":1}\n{\"v\":2}\n{\"v\":3}\n{\"v\":1}\n{\"v\":3}\n{\"w\":0}\n",
        options,
    );
    let field = &s.fields[0];
    assert_eq!(field.top(9), vec![("1", 2), ("2", 1)]);
    assert_eq!(field.distinct_dropped, 2);
    assert_eq!(field.values, 5);
    assert_eq!(field.types.get("int"), Some(&5));
    assert!(s.report_text("f", 1).contains("  4 distinct values\n             2   40.0%  1\n"));
}

#[test]
fn repeated_members_of_one_object_count_each_time() {
    let s = stats_for("{\"a\":1,\"a\":2}\n", &["a"]);
    assert_eq!(s.keys.get("a").unwrap().count, 2);
    assert_eq!(s.fields[0].top(3), vec![("1", 1)]);
}

#[test]
fn lines_can_be_observed_one_by_one() {
    let mut s = Stats::new(StatsOptions::default());
    s.observe(&Line { number: 7, bytes: b"{\"a\":1}", raw_len: 9 });
    s.observe(&Line { number: 8, bytes: b" \t", raw_len: 3 });
    s.observe(&Line { number: 9, bytes: b"x", raw_len: 1 });
    assert_eq!((s.lines, s.bytes, s.valid, s.blank, s.invalid), (3, 13, 1, 1, 1));
    assert_eq!(s.issues[0].line, 9);
    assert_eq!(s.issues[0].reason, "expected a value");
}

#[test]
fn long_keys_are_cut_in_the_report() {
    let s = stats_for("{\"abcdefghijklmnopqrstuvwxyz\":1}\n", &[]);
    assert!(s
        .report_text("-", 1)
        .contains("  abcdefghijklmnopqrstuvw~          1  100.0%  int:1\n"));
}

fn joined(a: &[u8], b: &[u8], max_issues: usize) {
    let check = |data: &[u8]| {
        let options = StatsOptions {
            max_issues,
            fields: vec![FieldPath::parse("t[]").unwrap(), FieldPath::parse("id").unwrap()],
            ..StatsOptions::default()
        };
        Stats::from_reader(data, options)
    };
    let (first, second) = (check(a), check(b));
    let both = check(&[a, b].concat());
    assert_eq!(both.lines, first.lines + second.lines);
    assert_eq!(both.bytes, first.bytes + second.bytes);
    assert_eq!(both.blank, first.blank + second.blank);
    assert_eq!(both.valid, first.valid + second.valid);
    assert_eq!(both.invalid, first.invalid + second.invalid);
    assert_eq!(both.objects, first.objects + second.objects);
    for i in 0..2 {
        let (x, y, z) = (&first.fields[i], &second.fields[i], &both.fields[i]);
        assert_eq!(z.records_matched, x.records_matched + y.records_matched);
        assert_eq!(z.records_missing, x.records_missing + y.records_missing);
        assert_eq!(z.values, x.values + y.values);
    }
    let mut issues = first.issues.clone();
    for issue in &second.issues {
        let mut moved = issue.clone();
        moved.line += first.lines;
        issues.push(moved);
    }
    issues.truncate(max_issues);
    assert_eq!(both.issues, issues);
}

#[test]
fn files_put_together_add_up() {
    let files: [&[u8]; 5] = [
        b"",
        b"{\"id\":1,\"t\":[1,2]}\n\nx\n",
        b"\xEF\xBB\xBF[1]\r\n{\"id\":\n\xFF\n",
        b"{\"t\":[3]}\n{\"id\":2}\n",
        b"\n",
    ];
    let tails: [&[u8]; 4] = [b"", b"]\n{\"t\":[4,5]}", b"  \r\n\"abc\n7\n,\n", b"{\"id\":9}\n"];
    for a in files {
        for b in tails {
            for max_issues in [0, 1, 2, 3, 10] {
                joined(a, b, max_issues);
            }
        }
    }
}

#[test]
fn the_first_keys_are_tracked() {
    let input = b"{\"z\":1,\"y\":2,\"z\":3}\n[4]\n{\"a\":5,\"y\":6}\n{\"a\":7,\"z\":8}\n";
    for (max_keys, wanted, dropped) in [
        (0, vec![], 7),
        (1, vec![("z", 3)], 4),
        (2, vec![("y", 2), ("z", 3)], 2),
        (3, vec![("a", 2), ("y", 2), ("z", 3)], 0),
        (9, vec![("a", 2), ("y", 2), ("z", 3)], 0),
    ] {
        let options = StatsOptions { max_keys, ..StatsOptions::default() };
        let s = Stats::from_reader(input, options);
        let rows: Vec<(&str, u64)> = (0..s.keys.len())
            .map(|i| (s.keys.key_at(i).as_str(), s.keys.value_at(i).count))
            .collect();
        assert_eq!(rows, wanted);
        assert_eq!(s.keys_dropped, dropped);
    }
}

#[test]
fn the_first_values_are_tracked() {
    let options = StatsOptions {
        max_distinct: 2,
        fields: vec![FieldPath::parse("[]").unwrap()],
        ..StatsOptions::default()
    };
    let s = Stats::from_reader(b"[9,8,9]\n[7,8,9]\n", options);
    assert_eq!(s.fields[0].top(5), vec![("9", 3), ("8", 2)]);
    assert_eq!(s.fields[0].distinct_dropped, 1);
}
