use jsonl_peek::schema::PathStat;
use jsonl_peek::{parse, FieldPath, Schema, SchemaOptions, Value};

fn schema_of(lines: &[&str], options: SchemaOptions) -> Schema {
    let mut schema = Schema::new(options);
    for line in lines {
        schema.observe(&parse(line).unwrap());
    }
    schema
}

const CHAT: [&str; 3] = [
    r#"{"id":1,"messages":[{"role":"system","content":"a"},{"role":"user","content":"b"}]}"#,
    r#"{"id":2,"messages":[{"role":"user","content":"c"}],"meta":{"lang":"en"}}"#,
    r#"{"id":"3","messages":[]}"#,
];

#[test]
fn records_top_level_paths() {
    let s = schema_of(&CHAT, SchemaOptions::default());
    assert_eq!(s.documents, 3);
    let id = s.paths.get("id").unwrap();
    assert_eq!(id.documents, 3);
    assert_eq!(id.types.get("int"), Some(&2));
    assert_eq!(id.types.get("string"), Some(&1));
    assert_eq!(s.paths.get("meta").unwrap().documents, 1);
}

#[test]
fn descends_through_arrays() {
    let s = schema_of(&CHAT, SchemaOptions::default());
    let role = s.paths.get("messages[].role").unwrap();
    // Three messages in total, but only two documents contain any.
    assert_eq!(role.occurrences, 3);
    assert_eq!(role.documents, 2);
    assert_eq!(role.types.get("string"), Some(&3));
    assert_eq!(s.paths.get("messages[]").unwrap().occurrences, 3);
}

#[test]
fn depth_limits_the_walk() {
    let shallow = schema_of(&CHAT, SchemaOptions { max_depth: 1, ..SchemaOptions::default() });
    assert!(shallow.paths.contains_key("messages"));
    assert!(!shallow.paths.contains_key("messages[]"));

    let two = schema_of(&CHAT, SchemaOptions { max_depth: 2, ..SchemaOptions::default() });
    assert!(two.paths.contains_key("messages[]"));
    assert!(!two.paths.contains_key("messages[].role"));
    assert!(two.paths.contains_key("meta.lang"));
}

#[test]
fn path_limit_sets_the_truncated_flag() {
    let s = schema_of(
        &CHAT,
        SchemaOptions {
            max_paths: 2,
            ..SchemaOptions::default()
        },
    );
    assert_eq!(s.paths.len(), 2);
    assert!(s.truncated);
    assert!(s.report_text(0.0f64.to_bits()).contains("path limit reached"));
}

#[test]
fn min_rate_filters_rare_paths() {
    let s = schema_of(&CHAT, SchemaOptions::default());
    let common: Vec<&str> = s
        .filtered(0.9f64.to_bits())
        .into_iter()
        .map(|(p, _)| p)
        .collect();
    assert!(common.contains(&"id"));
    assert!(!common.contains(&"meta"), "meta appears in 1 of 3 records");
    assert!(s.filtered(0.0f64.to_bits()).len() > common.len());
}

#[test]
fn non_object_records_are_still_counted() {
    let s = schema_of(&["[1,2]", "5", r#"{"a":1}"#], SchemaOptions::default());
    assert_eq!(s.documents, 3);
    assert_eq!(s.paths.get("[]").unwrap().occurrences, 2);
    assert_eq!(s.paths.get("a").unwrap().documents, 1);
}

#[test]
fn reports_render() {
    let s = schema_of(&CHAT, SchemaOptions::default());
    let text = s.report_text(0.0f64.to_bits());
    assert!(text.starts_with("3 records, depth 3"));
    assert!(text.contains("messages[].role"));

    let json = parse(&s.report_json(0.0f64.to_bits())).expect("schema report must be valid JSON");
    assert_eq!(json.get("records").and_then(Value::as_i64), Some(3));
    let paths = json.get("paths").unwrap();
    assert_eq!(
        paths
            .get("messages[].role")
            .and_then(|p| p.get("occurrences"))
            .and_then(Value::as_i64),
        Some(3)
    );
}

#[test]
fn repeated_paths_in_one_document_count_once_per_document() {
    let s = schema_of(
        &[r#"{"xs":[{"v":1},{"v":2},{"v":3}]}"#],
        SchemaOptions::default(),
    );
    let v = s.paths.get("xs[].v").unwrap();
    assert_eq!(v.documents, 1);
    assert_eq!(v.occurrences, 3);
}

#[test]
fn schema_example_counts_types() {
    let s = schema_of(
        &[r#"{"a":{"b":1}}"#, r#"{"a":{"b":"x"},"c":true}"#],
        SchemaOptions::default(),
    );
    let a_b = s.paths.get("a.b").unwrap();
    assert_eq!(a_b.documents, 2);
    assert_eq!(a_b.types.get("int"), Some(&1));
    assert_eq!(a_b.types.get("string"), Some(&1));
}

#[test]
fn schema_options_have_defaults() {
    let options = SchemaOptions::default();
    assert_eq!(options.max_depth, 3);
    assert_eq!(options.max_paths, 2_000);
    assert_eq!(PathStat::default().occurrences, 0);
}

#[test]
fn schema_text_report_is_laid_out_in_columns() {
    let s = schema_of(&CHAT, SchemaOptions { max_depth: 1, ..SchemaOptions::default() });
    let expected = format!(
        "3 records, depth 1\n\n  {:<38} {:>7}  {}\n  {:<38} {:>6.1}%  {}\n  {:<38} {:>6.1}%  {}\n  {:<38} {:>6.1}%  {}\n",
        "path", "rate", "types", "id", 100.0, "int:2 string:1", "messages", 100.0, "array:3", "meta",
        100.0 / 3.0, "object:1"
    );
    assert_eq!(s.report_text(0.0f64.to_bits()), expected);
}

#[test]
fn schema_json_report_is_exact() {
    let s = schema_of(&[r#"{"b":1,"a":[2.5,"x"]}"#, r#"{"b":null}"#], SchemaOptions::default());
    assert_eq!(
        s.report_json(0.0f64.to_bits()),
        concat_all(&[
            "{\"records\":2,\"truncated\":false,\"paths\":{",
            "\"a\":{\"documents\":1,\"occurrences\":1,\"types\":{\"array\":1}},",
            "\"a[]\":{\"documents\":1,\"occurrences\":2,\"types\":{\"float\":1,\"string\":1}},",
            "\"b\":{\"documents\":2,\"occurrences\":2,\"types\":{\"int\":1,\"null\":1}}}}",
        ])
    );
    assert_eq!(
        s.report_json(0.75f64.to_bits()),
        concat_all(&[
            "{\"records\":2,\"truncated\":false,\"paths\":{",
            "\"b\":{\"documents\":2,\"occurrences\":2,\"types\":{\"int\":1,\"null\":1}}}}",
        ])
    );
}

fn concat_all(parts: &[&str]) -> String {
    parts.concat()
}

#[test]
fn an_empty_schema_reports_cleanly() {
    let s = Schema::new(SchemaOptions::default());
    assert!(s.filtered(1.0f64.to_bits()).is_empty());
    assert_eq!(
        s.report_json(0.5f64.to_bits()),
        "{\"records\":0,\"truncated\":false,\"paths\":{}}"
    );
}

#[test]
fn tracked_paths_stay_exact_when_the_table_is_full() {
    let s = schema_of(
        &[r#"{"a":1,"b":2}"#, r#"{"a":"x","c":3}"#, r#"{"c":4,"b":5,"a":6}"#],
        SchemaOptions { max_depth: 3, max_paths: 2 },
    );
    assert!(s.truncated);
    assert!(s.paths.get("c").is_none());
    let a = s.paths.get("a").unwrap();
    assert_eq!((a.documents, a.occurrences), (3, 3));
    assert_eq!(a.types.get("int"), Some(&2));
    assert_eq!(s.paths.get("b").unwrap().documents, 2);
}

#[test]
fn a_full_table_without_a_loss_is_not_truncated() {
    let s = schema_of(
        &[r#"{"a":1,"b":2}"#, r#"{"b":3,"a":4}"#],
        SchemaOptions { max_depth: 3, max_paths: 2 },
    );
    assert!(!s.truncated);
}

#[test]
fn rates_compare_as_doubles_do() {
    // Of n records, k have the path: the filter must agree with the division of doubles.
    for n in 1..12u64 {
        for k in 1..=n {
            let mut s = Schema::new(SchemaOptions::default());
            for i in 0..n {
                let line = if i < k { "{\"p\":1}" } else { "{}" };
                s.observe(&parse(line).unwrap());
            }
            for rate in [0.0, 0.1, 0.25, 1.0 / 3.0, 0.5, 2.0 / 3.0, 0.9, 1.0, 1.5, -1.0, 5e-324] {
                let kept = !s.filtered(f64::to_bits(rate)).is_empty();
                assert_eq!(kept, k as f64 / n as f64 >= rate, "{} of {} at {}", k, n, rate);
            }
            assert!(s.filtered(f64::NAN.to_bits()).is_empty());
            assert!(s.filtered(f64::INFINITY.to_bits()).is_empty());
            assert!(!s.filtered(f64::NEG_INFINITY.to_bits()).is_empty());
            assert!(!s.filtered((-0.0f64).to_bits()).is_empty());
        }
    }
}

#[test]
fn nested_paths_use_dots_and_brackets() {
    let s = schema_of(
        &[r#"{"a":[[{"b":{"c":1}}]]}"#],
        SchemaOptions { max_depth: 5, max_paths: 100 },
    );
    let names: Vec<&str> = s.filtered(0).into_iter().map(|(p, _)| p).collect();
    assert_eq!(names, vec!["a", "a[]", "a[][]", "a[][].b", "a[][].b.c"]);
}

#[test]
fn an_empty_member_name_leaves_the_prefix_empty() {
    let s = schema_of(&[r#"{"":{"x":1}}"#], SchemaOptions::default());
    let names: Vec<&str> = s.filtered(0).into_iter().map(|(p, _)| p).collect();
    assert_eq!(names, vec!["", "x"]);
}

#[test]
fn a_schema_counts_what_its_paths_select() {
    let s = schema_of(&CHAT, SchemaOptions::default());
    for (path, stat) in s.filtered(0) {
        let field = FieldPath::parse(path).unwrap();
        let mut values = 0;
        let mut records = 0;
        for line in CHAT {
            let n = field.select(&parse(line).unwrap()).len() as u64;
            values += n;
            records += u64::from(n > 0);
        }
        assert_eq!((stat.occurrences, stat.documents), (values, records), "{}", path);
    }
}

#[test]
fn filtering_keeps_the_order_of_the_paths() {
    let s = schema_of(&CHAT, SchemaOptions::default());
    let names: Vec<&str> = s.filtered(0.6f64.to_bits()).into_iter().map(|(p, _)| p).collect();
    assert_eq!(
        names,
        vec!["id", "messages", "messages[]", "messages[].content", "messages[].role"]
    );
}

#[test]
fn paths_of_one_record_select_what_the_schema_counts() {
    let line = r#"{"a":[1,"x",{"b":null}],"c":{"d":[2.5,true]},"e":{}}"#;
    let v = parse(line).unwrap();
    let s = schema_of(&[line], SchemaOptions::default());
    assert!(!s.truncated);
    for (path, stat) in s.filtered(0) {
        let found = FieldPath::parse(path).unwrap();
        let found = found.select(&v);
        assert_eq!(stat.documents, 1);
        assert!(!found.is_empty());
        assert_eq!(stat.occurrences, found.len() as u64);
        for label in ["null", "bool", "int", "float", "string", "array", "object"] {
            let n = found.iter().filter(|x| x.type_label() == label).count() as u64;
            assert_eq!(stat.types.get(label).copied().unwrap_or(0), n, "{} {}", path, label);
        }
    }
}

#[test]
fn names_that_no_path_can_express_are_listed_all_the_same() {
    let s = schema_of(&[r#"{"a.b":1}"#], SchemaOptions::default());
    assert_eq!(s.paths.get("a.b").unwrap().occurrences, 1);
    let v = parse(r#"{"a.b":1}"#).unwrap();
    assert!(FieldPath::parse("a.b").unwrap().select(&v).is_empty());
}

#[test]
fn the_order_of_the_records_makes_no_difference() {
    let orders: [[usize; 3]; 6] =
        [[0, 1, 2], [0, 2, 1], [1, 0, 2], [1, 2, 0], [2, 0, 1], [2, 1, 0]];
    for max_paths in [0, 1, 3, 5, 6, 7, 100] {
        let options = SchemaOptions { max_depth: 3, max_paths };
        let first = schema_of(&CHAT, options);
        for order in orders {
            let lines: Vec<&str> = order.iter().map(|i| CHAT[*i]).collect();
            let other = schema_of(&lines, options);
            assert_eq!(first.documents, other.documents);
            assert_eq!(first.truncated, other.truncated);
            if !first.truncated {
                assert_eq!(first.paths, other.paths);
            }
        }
    }
}

#[test]
fn the_first_paths_are_tracked() {
    let lines = [r#"{"z":1,"y":{"q":2}}"#, r#"{"a":3,"z":4}"#];
    for (max_paths, wanted) in [
        (0, vec![]),
        (1, vec!["z"]),
        (2, vec!["y", "z"]),
        (3, vec!["y", "y.q", "z"]),
        (4, vec!["a", "y", "y.q", "z"]),
    ] {
        let s = schema_of(&lines, SchemaOptions { max_depth: 3, max_paths });
        let names: Vec<&str> = s.filtered(0).into_iter().map(|(p, _)| p).collect();
        assert_eq!(names, wanted);
        assert_eq!(s.truncated, max_paths < 4);
    }
}
