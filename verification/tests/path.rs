use jsonl_peek::path::Segment;
use jsonl_peek::{parse, FieldPath, PathError, Value};

fn doc() -> Value {
    parse(
        r#"{
            "id": 7,
            "meta": {"source": "web", "tags": ["a", "b"]},
            "messages": [
                {"role": "system", "content": "be nice"},
                {"role": "user", "content": "hi"},
                {"role": "assistant"}
            ]
        }"#,
    )
    .unwrap()
}

fn select_json(path: &str, value: &Value) -> Vec<String> {
    FieldPath::parse(path)
        .unwrap()
        .select(value)
        .into_iter()
        .map(|v| v.to_json())
        .collect()
}

#[test]
fn compiles_segments() {
    let p = FieldPath::parse("messages[].role").unwrap();
    assert_eq!(
        p.segments(),
        &[
            Segment::Key("messages".to_string()),
            Segment::Each,
            Segment::Key("role".to_string())
        ]
    );
    assert_eq!(p.source(), "messages[].role");
    assert_eq!(p.to_string(), "messages[].role");
}

#[test]
fn selects_scalars_and_nested_objects() {
    let d = doc();
    assert_eq!(select_json("id", &d), vec!["7"]);
    assert_eq!(select_json("meta.source", &d), vec![r#""web""#]);
    assert_eq!(select_json("meta.tags[1]", &d), vec![r#""b""#]);
}

#[test]
fn fans_out_over_arrays() {
    let d = doc();
    assert_eq!(
        select_json("messages[].role", &d),
        vec![r#""system""#, r#""user""#, r#""assistant""#]
    );
    // The third message has no "content", so only two values come back.
    assert_eq!(
        select_json("messages[].content", &d),
        vec![r#""be nice""#, r#""hi""#]
    );
}

#[test]
fn supports_negative_and_out_of_range_indices() {
    let d = doc();
    assert_eq!(select_json("messages[-1].role", &d), vec![r#""assistant""#]);
    assert!(select_json("messages[9]", &d).is_empty());
    assert!(select_json("messages[-9]", &d).is_empty());
}

#[test]
fn missing_and_type_mismatched_paths_select_nothing() {
    let d = doc();
    assert!(select_json("nope", &d).is_empty());
    assert!(select_json("meta.source.deeper", &d).is_empty());
    assert!(select_json("id[]", &d).is_empty());
    assert!(select_json("meta[0]", &d).is_empty());
}

#[test]
fn top_level_arrays_work() {
    let d = parse(r#"[{"a":1},{"a":2}]"#).unwrap();
    assert_eq!(select_json("[].a", &d), vec!["1", "2"]);
    assert_eq!(select_json("[0].a", &d), vec!["1"]);
}

#[test]
fn rejects_malformed_paths() {
    assert_eq!(FieldPath::parse(""), Err(PathError::Empty));
    assert_eq!(FieldPath::parse("a."), Err(PathError::EmptySegment(2)));
    assert_eq!(FieldPath::parse(".a"), Err(PathError::EmptySegment(0)));
    assert_eq!(FieldPath::parse("a..b"), Err(PathError::EmptySegment(2)));
    assert_eq!(FieldPath::parse("a[0"), Err(PathError::UnclosedBracket(1)));
    assert_eq!(
        FieldPath::parse("a[x]"),
        Err(PathError::BadIndex(2, "x".to_string()))
    );
    assert_eq!(FieldPath::parse("a[0]b"), Err(PathError::MissingSeparator(4)));
    assert_eq!(
        FieldPath::parse("a[0").unwrap_err().to_string(),
        "unclosed '[' at offset 1"
    );
}

#[test]
fn every_path_error_has_words() {
    let words = |path: &str| FieldPath::parse(path).unwrap_err().to_string();
    assert_eq!(words(""), "empty field path");
    assert_eq!(words("a."), "empty path segment at offset 2");
    assert_eq!(words("a[x]"), "invalid array index 'x' at offset 2");
    assert_eq!(words("a[0]b"), "expected '.' before the key at offset 4");
}

#[test]
fn offsets_count_bytes() {
    assert_eq!(FieldPath::parse("é."), Err(PathError::EmptySegment(3)));
    assert_eq!(FieldPath::parse("日本[0"), Err(PathError::UnclosedBracket(6)));
    assert_eq!(
        FieldPath::parse("é[ö]"),
        Err(PathError::BadIndex(3, "ö".to_string()))
    );
}

#[test]
fn indices_are_signed_and_bounded() {
    let p = FieldPath::parse("[+3][-9223372036854775808][9223372036854775807]").unwrap();
    assert_eq!(
        p.segments(),
        &[Segment::Index(3), Segment::Index(i64::MIN), Segment::Index(i64::MAX)]
    );
    assert_eq!(
        FieldPath::parse("[9223372036854775808]"),
        Err(PathError::BadIndex(1, "9223372036854775808".to_string()))
    );
    assert_eq!(
        FieldPath::parse("[ 1]"),
        Err(PathError::BadIndex(1, " 1".to_string()))
    );
    assert_eq!(
        FieldPath::parse("[-]"),
        Err(PathError::BadIndex(1, "-".to_string()))
    );
}

#[test]
fn a_dot_may_stand_before_a_bracket() {
    let p = FieldPath::parse("a.[0]").unwrap();
    assert_eq!(p.segments(), &[Segment::Key("a".to_string()), Segment::Index(0)]);
}

#[test]
fn a_closing_bracket_alone_is_part_of_a_key() {
    let d = parse(r#"{"a]b":5}"#).unwrap();
    assert_eq!(select_json("a]b", &d), vec!["5"]);
}

#[test]
fn cloned_paths_are_equal() {
    let p = FieldPath::parse("a[].b[-2]").unwrap();
    assert_eq!(p.clone(), p);
}

#[test]
fn joined_paths_select_what_the_parts_select() {
    let d = doc();
    let whole = select_json("messages[].role", &d);
    let first = FieldPath::parse("messages[]").unwrap();
    let second = FieldPath::parse("role").unwrap();
    let mut parts = Vec::new();
    for v in first.select(&d) {
        for w in second.select(v) {
            parts.push(w.to_json());
        }
    }
    assert_eq!(whole, parts);
}

#[test]
fn written_paths_compile_back() {
    for path in ["a", "a.b", "[]", "[-1]", "a[][].b[7].c", "[0].id"] {
        let mut text = String::new();
        for (i, segment) in FieldPath::parse(path).unwrap().segments().iter().enumerate() {
            match segment {
                Segment::Key(name) if i == 0 => text.push_str(name),
                Segment::Key(name) => text.push_str(&format!(".{}", name)),
                Segment::Index(n) => text.push_str(&format!("[{}]", n)),
                Segment::Each => text.push_str("[]"),
            }
        }
        assert_eq!(text, path);
    }
}

#[test]
fn a_selection_fits_in_the_record() {
    // The record holds seven values, itself included.
    let d = parse("[[1,2],[3],[]]").unwrap();
    for path in ["[]", "[][]", "[0][]", "[][0]"] {
        assert!(select_json(path, &d).len() <= 7);
    }
    assert_eq!(select_json("[][]", &d), vec!["1", "2", "3"]);
}
