use ndjson_join::join::{join, pair_line, MergeMode, Opts};
use ndjson_join::json::Json;
use ndjson_join::merge::check_well_formed;
use ndjson_join::record::{Decoded, JoinError};

const NDJSON1: &str = r#"{"id": 1, "sub_id": 11, "file":"ndjson1", "val":"both"}
{"id": 2, "sub_id": 21, "file":"ndjson1", "val":"both/multi 1"}
{"id": 2, "sub_id": 22, "file":"ndjson1", "val":"both/multi 1"}
{"id": 3, "sub_id": 31, "file":"ndjson1", "val":"both/multi 2"}
{"id": 4, "sub_id": 41, "file":"ndjson1", "val":"only 1"}
{"id": 6, "sub_id": 62, "file":"ndjson1", "val":"both/multi"}
{"id": 6, "sub_id": 61, "file":"ndjson1", "val":"both/multi"}
{"id":11, "sub_id":111, "file":"ndjson1", "val":"both"}
{"id":12, "sub_id":121, "file":"ndjson1", "val":"both/multi 1"}
{"id":12, "sub_id":122, "file":"ndjson1", "val":"both/multi 1"}
{"id":13, "sub_id":131, "file":"ndjson1", "val":"both/multi 2"}
{"id":14, "sub_id":141, "file":"ndjson1", "val":"only 1"}
{"id":16, "sub_id":162, "file":"ndjson1", "val":"both/multi"}
{"id":16, "sub_id":161, "file":"ndjson1", "val":"both/multi"}
"#;

const NDJSON2: &str = r#"{"id": 1, "sub_id": 11, "file":"ndjson2", "val":"both"}
{"id": 2, "sub_id": 21, "file":"ndjson2", "val":"both/multi 1"}
{"id": 3, "sub_id": 31, "file":"ndjson2", "val":"both/multi 2"}
{"id": 3, "sub_id": 32, "file":"ndjson2", "val":"both/multi 2"}
{"id": 5, "sub_id": 51, "file":"ndjson2", "val":"only 2"}
{"id": 6, "sub_id": 62, "file":"ndjson2", "val":"both/multi"}
{"id": 6, "sub_id": 61, "file":"ndjson2", "val":"both/multi"}
{"id":11, "sub_id":111, "file":"ndjson2", "val":"both"}
{"id":12, "sub_id":121, "file":"ndjson2", "val":"both/multi 1"}
{"id":13, "sub_id":131, "file":"ndjson2", "val":"both/multi 2"}
{"id":13, "sub_id":132, "file":"ndjson2", "val":"both/multi 2"}
{"id":15, "sub_id":151, "file":"ndjson2", "val":"only 2"}
{"id":16, "sub_id":162, "file":"ndjson2", "val":"both/multi"}
{"id":16, "sub_id":161, "file":"ndjson2", "val":"both/multi"}
"#;

fn to_json(v: serde_json::Value) -> Json {
    match v {
        serde_json::Value::Null => Json::Null,
        serde_json::Value::Bool(b) => Json::Bool(b),
        serde_json::Value::Number(n) => Json::Number(n.to_string()),
        serde_json::Value::String(s) => Json::Str(s),
        serde_json::Value::Array(a) => Json::Array(a.into_iter().map(to_json).collect()),
        serde_json::Value::Object(m) => {
            Json::Object(m.into_iter().map(|(k, v)| (k, to_json(v))).collect())
        }
    }
}

fn decode_lines(text: &str) -> Vec<Decoded> {
    text.split_inclusive('\n')
        .map(|line| match serde_json::from_str::<serde_json::Value>(line) {
            Ok(v) => Decoded::Value(to_json(v)),
            Err(_) => Decoded::Invalid(line.to_string()),
        })
        .collect()
}

fn value(text: &str) -> Json {
    to_json(serde_json::from_str(text).unwrap())
}

fn run(left: &str, key1: &str, right: &str, key2: &str, opts: Opts) -> Result<String, JoinError> {
    let lines = join(&decode_lines(left), key1, &decode_lines(right), key2, &opts)?;
    let mut out = String::new();
    for line in lines {
        out.push_str(&line);
        out.push('\n');
    }
    Ok(out)
}

fn cat(parts: &[&str]) -> String {
    parts.concat()
}

fn plain() -> Opts {
    Opts { allow_no_key: false, merge: None }
}

#[test]
fn test_join() {
    let out = run(NDJSON1, "id", NDJSON2, "id", plain()).unwrap();
    assert_eq!(
        cat(&[
            r#"[{"file":"ndjson1","id":1,"sub_id":11,"val":"both"},{"file":"ndjson2","id":1,"sub_id":11,"val":"both"}]"#, "\n",
            r#"[{"file":"ndjson1","id":2,"sub_id":21,"val":"both/multi 1"},{"file":"ndjson2","id":2,"sub_id":21,"val":"both/multi 1"}]"#, "\n",
            r#"[{"file":"ndjson1","id":2,"sub_id":22,"val":"both/multi 1"},{"file":"ndjson2","id":2,"sub_id":21,"val":"both/multi 1"}]"#, "\n",
            r#"[{"file":"ndjson1","id":3,"sub_id":31,"val":"both/multi 2"},{"file":"ndjson2","id":3,"sub_id":31,"val":"both/multi 2"}]"#, "\n",
            r#"[{"file":"ndjson1","id":3,"sub_id":31,"val":"both/multi 2"},{"file":"ndjson2","id":3,"sub_id":32,"val":"both/multi 2"}]"#, "\n",
            r#"[{"file":"ndjson1","id":6,"sub_id":62,"val":"both/multi"},{"file":"ndjson2","id":6,"sub_id":62,"val":"both/multi"}]"#, "\n",
            r#"[{"file":"ndjson1","id":6,"sub_id":62,"val":"both/multi"},{"file":"ndjson2","id":6,"sub_id":61,"val":"both/multi"}]"#, "\n",
            r#"[{"file":"ndjson1","id":6,"sub_id":61,"val":"both/multi"},{"file":"ndjson2","id":6,"sub_id":62,"val":"both/multi"}]"#, "\n",
            r#"[{"file":"ndjson1","id":6,"sub_id":61,"val":"both/multi"},{"file":"ndjson2","id":6,"sub_id":61,"val":"both/multi"}]"#, "\n",
            r#"[{"file":"ndjson1","id":11,"sub_id":111,"val":"both"},{"file":"ndjson2","id":11,"sub_id":111,"val":"both"}]"#, "\n",
            r#"[{"file":"ndjson1","id":12,"sub_id":121,"val":"both/multi 1"},{"file":"ndjson2","id":12,"sub_id":121,"val":"both/multi 1"}]"#, "\n",
            r#"[{"file":"ndjson1","id":12,"sub_id":122,"val":"both/multi 1"},{"file":"ndjson2","id":12,"sub_id":121,"val":"both/multi 1"}]"#, "\n",
            r#"[{"file":"ndjson1","id":13,"sub_id":131,"val":"both/multi 2"},{"file":"ndjson2","id":13,"sub_id":131,"val":"both/multi 2"}]"#, "\n",
            r#"[{"file":"ndjson1","id":13,"sub_id":131,"val":"both/multi 2"},{"file":"ndjson2","id":13,"sub_id":132,"val":"both/multi 2"}]"#, "\n",
            r#"[{"file":"ndjson1","id":16,"sub_id":162,"val":"both/multi"},{"file":"ndjson2","id":16,"sub_id":162,"val":"both/multi"}]"#, "\n",
            r#"[{"file":"ndjson1","id":16,"sub_id":162,"val":"both/multi"},{"file":"ndjson2","id":16,"sub_id":161,"val":"both/multi"}]"#, "\n",
            r#"[{"file":"ndjson1","id":16,"sub_id":161,"val":"both/multi"},{"file":"ndjson2","id":16,"sub_id":162,"val":"both/multi"}]"#, "\n",
            r#"[{"file":"ndjson1","id":16,"sub_id":161,"val":"both/multi"},{"file":"ndjson2","id":16,"sub_id":161,"val":"both/multi"}]"#, "\n",
        ]),
        out
    );
}

#[test]
fn test_join_with_merging1() {
    let opts = Opts { allow_no_key: false, merge: Some(MergeMode::PreferLeft) };
    let out = run(NDJSON1, "id", NDJSON2, "id", opts).unwrap();
    assert_eq!(
        cat(&[
            r#"{"file":"ndjson1","id":1,"sub_id":11,"val":"both"}"#, "\n",
            r#"{"file":"ndjson1","id":2,"sub_id":21,"val":"both/multi 1"}"#, "\n",
            r#"{"file":"ndjson1","id":2,"sub_id":22,"val":"both/multi 1"}"#, "\n",
            r#"{"file":"ndjson1","id":3,"sub_id":31,"val":"both/multi 2"}"#, "\n",
            r#"{"file":"ndjson1","id":3,"sub_id":31,"val":"both/multi 2"}"#, "\n",
            r#"{"file":"ndjson1","id":6,"sub_id":62,"val":"both/multi"}"#, "\n",
            r#"{"file":"ndjson1","id":6,"sub_id":62,"val":"both/multi"}"#, "\n",
            r#"{"file":"ndjson1","id":6,"sub_id":61,"val":"both/multi"}"#, "\n",
            r#"{"file":"ndjson1","id":6,"sub_id":61,"val":"both/multi"}"#, "\n",
            r#"{"file":"ndjson1","id":11,"sub_id":111,"val":"both"}"#, "\n",
            r#"{"file":"ndjson1","id":12,"sub_id":121,"val":"both/multi 1"}"#, "\n",
            r#"{"file":"ndjson1","id":12,"sub_id":122,"val":"both/multi 1"}"#, "\n",
            r#"{"file":"ndjson1","id":13,"sub_id":131,"val":"both/multi 2"}"#, "\n",
            r#"{"file":"ndjson1","id":13,"sub_id":131,"val":"both/multi 2"}"#, "\n",
            r#"{"file":"ndjson1","id":16,"sub_id":162,"val":"both/multi"}"#, "\n",
            r#"{"file":"ndjson1","id":16,"sub_id":162,"val":"both/multi"}"#, "\n",
            r#"{"file":"ndjson1","id":16,"sub_id":161,"val":"both/multi"}"#, "\n",
            r#"{"file":"ndjson1","id":16,"sub_id":161,"val":"both/multi"}"#, "\n",
        ]),
        out
    );
}

#[test]
fn test_join_with_merging2() {
    let opts = Opts { allow_no_key: false, merge: Some(MergeMode::PreferRight) };
    let out = run(NDJSON1, "id", NDJSON2, "id", opts).unwrap();
    assert_eq!(
        cat(&[
            r#"{"file":"ndjson2","id":1,"sub_id":11,"val":"both"}"#, "\n",
            r#"{"file":"ndjson2","id":2,"sub_id":21,"val":"both/multi 1"}"#, "\n",
            r#"{"file":"ndjson2","id":2,"sub_id":21,"val":"both/multi 1"}"#, "\n",
            r#"{"file":"ndjson2","id":3,"sub_id":31,"val":"both/multi 2"}"#, "\n",
            r#"{"file":"ndjson2","id":3,"sub_id":32,"val":"both/multi 2"}"#, "\n",
            r#"{"file":"ndjson2","id":6,"sub_id":62,"val":"both/multi"}"#, "\n",
            r#"{"file":"ndjson2","id":6,"sub_id":61,"val":"both/multi"}"#, "\n",
            r#"{"file":"ndjson2","id":6,"sub_id":62,"val":"both/multi"}"#, "\n",
            r#"{"file":"ndjson2","id":6,"sub_id":61,"val":"both/multi"}"#, "\n",
            r#"{"file":"ndjson2","id":11,"sub_id":111,"val":"both"}"#, "\n",
            r#"{"file":"ndjson2","id":12,"sub_id":121,"val":"both/multi 1"}"#, "\n",
            r#"{"file":"ndjson2","id":12,"sub_id":121,"val":"both/multi 1"}"#, "\n",
            r#"{"file":"ndjson2","id":13,"sub_id":131,"val":"both/multi 2"}"#, "\n",
            r#"{"file":"ndjson2","id":13,"sub_id":132,"val":"both/multi 2"}"#, "\n",
            r#"{"file":"ndjson2","id":16,"sub_id":162,"val":"both/multi"}"#, "\n",
            r#"{"file":"ndjson2","id":16,"sub_id":161,"val":"both/multi"}"#, "\n",
            r#"{"file":"ndjson2","id":16,"sub_id":162,"val":"both/multi"}"#, "\n",
            r#"{"file":"ndjson2","id":16,"sub_id":161,"val":"both/multi"}"#, "\n",
        ]),
        out
    );
}

#[test]
fn test_join_different_key() {
    let right = NDJSON2.to_string().replace(r#""id""#, r#""id2""#);
    let out = run(NDJSON1, "id", &right, "id2", plain()).unwrap();
    assert_eq!(
        cat(&[
            r#"[{"file":"ndjson1","id":1,"sub_id":11,"val":"both"},{"file":"ndjson2","id2":1,"sub_id":11,"val":"both"}]"#, "\n",
            r#"[{"file":"ndjson1","id":2,"sub_id":21,"val":"both/multi 1"},{"file":"ndjson2","id2":2,"sub_id":21,"val":"both/multi 1"}]"#, "\n",
            r#"[{"file":"ndjson1","id":2,"sub_id":22,"val":"both/multi 1"},{"file":"ndjson2","id2":2,"sub_id":21,"val":"both/multi 1"}]"#, "\n",
            r#"[{"file":"ndjson1","id":3,"sub_id":31,"val":"both/multi 2"},{"file":"ndjson2","id2":3,"sub_id":31,"val":"both/multi 2"}]"#, "\n",
            r#"[{"file":"ndjson1","id":3,"sub_id":31,"val":"both/multi 2"},{"file":"ndjson2","id2":3,"sub_id":32,"val":"both/multi 2"}]"#, "\n",
            r#"[{"file":"ndjson1","id":6,"sub_id":62,"val":"both/multi"},{"file":"ndjson2","id2":6,"sub_id":62,"val":"both/multi"}]"#, "\n",
            r#"[{"file":"ndjson1","id":6,"sub_id":62,"val":"both/multi"},{"file":"ndjson2","id2":6,"sub_id":61,"val":"both/multi"}]"#, "\n",
            r#"[{"file":"ndjson1","id":6,"sub_id":61,"val":"both/multi"},{"file":"ndjson2","id2":6,"sub_id":62,"val":"both/multi"}]"#, "\n",
            r#"[{"file":"ndjson1","id":6,"sub_id":61,"val":"both/multi"},{"file":"ndjson2","id2":6,"sub_id":61,"val":"both/multi"}]"#, "\n",
            r#"[{"file":"ndjson1","id":11,"sub_id":111,"val":"both"},{"file":"ndjson2","id2":11,"sub_id":111,"val":"both"}]"#, "\n",
            r#"[{"file":"ndjson1","id":12,"sub_id":121,"val":"both/multi 1"},{"file":"ndjson2","id2":12,"sub_id":121,"val":"both/multi 1"}]"#, "\n",
            r#"[{"file":"ndjson1","id":12,"sub_id":122,"val":"both/multi 1"},{"file":"ndjson2","id2":12,"sub_id":121,"val":"both/multi 1"}]"#, "\n",
            r#"[{"file":"ndjson1","id":13,"sub_id":131,"val":"both/multi 2"},{"file":"ndjson2","id2":13,"sub_id":131,"val":"both/multi 2"}]"#, "\n",
            r#"[{"file":"ndjson1","id":13,"sub_id":131,"val":"both/multi 2"},{"file":"ndjson2","id2":13,"sub_id":132,"val":"both/multi 2"}]"#, "\n",
            r#"[{"file":"ndjson1","id":16,"sub_id":162,"val":"both/multi"},{"file":"ndjson2","id2":16,"sub_id":162,"val":"both/multi"}]"#, "\n",
            r#"[{"file":"ndjson1","id":16,"sub_id":162,"val":"both/multi"},{"file":"ndjson2","id2":16,"sub_id":161,"val":"both/multi"}]"#, "\n",
            r#"[{"file":"ndjson1","id":16,"sub_id":161,"val":"both/multi"},{"file":"ndjson2","id2":16,"sub_id":162,"val":"both/multi"}]"#, "\n",
            r#"[{"file":"ndjson1","id":16,"sub_id":161,"val":"both/multi"},{"file":"ndjson2","id2":16,"sub_id":161,"val":"both/multi"}]"#, "\n",
        ]),
        out
    );
}

#[test]
fn test_join_without_key() {
    let left = cat(&[r#"{"id":1}"#, "\n", r#"{"id":2}"#]);
    let right = cat(&[r#"{"id":11}"#, "\n", r#"{"id":22}"#]);
    let r = run(&left, "noid", &right, "noid", plain());
    assert_eq!(r.err().unwrap().message(), r#"Key 'noid' does not exist: {"id":1}"#);
}

#[test]
fn test_join_allow_no_key() {
    let left = cat(&[r#"{"id":1}"#, "\n", r#"{"id":2}"#]);
    let right = cat(&[r#"{"id":11}"#, "\n", r#"{"id":22}"#]);
    let opts = Opts { allow_no_key: true, merge: None };
    let out = run(&left, "noid", &right, "noid", opts).unwrap();
    assert_eq!(
        cat(&[
            r#"[{"id":1},{"id":11}]"#, "\n",
            r#"[{"id":1},{"id":22}]"#, "\n",
            r#"[{"id":2},{"id":11}]"#, "\n",
            r#"[{"id":2},{"id":22}]"#, "\n",
        ]),
        out
    );
}

#[test]
fn single_match_only() {
    let left = cat(&[r#"{"id":1}"#, "\n", r#"{"id":2}"#, "\n"]);
    let right = cat(&[r#"{"id":1,"v":"a"}"#, "\n"]);
    let out = run(&left, "id", &right, "id", plain()).unwrap();
    assert_eq!(cat(&[r#"[{"id":1},{"id":1,"v":"a"}]"#, "\n"]), out);
}

#[test]
fn duplicate_left_keys_share_right_record() {
    let left = cat(&[r#"{"id":2,"n":1}"#, "\n", r#"{"id":2,"n":2}"#, "\n"]);
    let right = cat(&[r#"{"id":2,"r":true}"#, "\n"]);
    let out = run(&left, "id", &right, "id", plain()).unwrap();
    assert_eq!(
        cat(&[
            r#"[{"id":2,"n":1},{"id":2,"r":true}]"#, "\n",
            r#"[{"id":2,"n":2},{"id":2,"r":true}]"#, "\n",
        ]),
        out
    );
}

#[test]
fn merge_prefer_right_scenario() {
    let left = cat(&[r#"{"id":1,"x":1}"#, "\n"]);
    let right = cat(&[r#"{"id":1,"x":2}"#, "\n"]);
    let opts = Opts { allow_no_key: false, merge: Some(MergeMode::PreferRight) };
    let out = run(&left, "id", &right, "id", opts).unwrap();
    assert_eq!(cat(&[r#"{"id":1,"x":2}"#, "\n"]), out);
}

#[test]
fn cartesian_counts_per_key() {
    let left = cat(&[r#"{"k":1,"a":1}"#, "\n", r#"{"k":1,"a":2}"#, "\n", r#"{"k":2,"a":3}"#, "\n"]);
    let right = cat(&[
        r#"{"k":1,"b":1}"#, "\n", r#"{"k":1,"b":2}"#, "\n", r#"{"k":1,"b":3}"#, "\n",
        r#"{"k":2,"b":4}"#, "\n"
    ]);
    let out = run(&left, "k", &right, "k", plain()).unwrap();
    let lines: Vec<&str> = out.lines().collect();
    assert_eq!(lines.len(), 2 * 3 + 1);
    assert_eq!(lines[0], r#"[{"a":1,"k":1},{"b":1,"k":1}]"#);
    assert_eq!(lines[2], r#"[{"a":1,"k":1},{"b":3,"k":1}]"#);
    assert_eq!(lines[3], r#"[{"a":2,"k":1},{"b":1,"k":1}]"#);
    assert_eq!(lines[6], r#"[{"a":3,"k":2},{"b":4,"k":2}]"#);
}

#[test]
fn rerun_gives_identical_output() {
    let a = run(NDJSON1, "id", NDJSON2, "id", plain()).unwrap();
    let b = run(NDJSON1, "id", NDJSON2, "id", plain()).unwrap();
    assert_eq!(a, b);
}

#[test]
fn nested_merge_keeps_fields_of_both() {
    let l = value(r#"{"id":1,"o":{"a":1,"c":[1,2]},"s":"left"}"#);
    let r = value(r#"{"id":1,"o":{"b":2,"c":{"x":0}},"t":null}"#);
    let merged = pair_line(&l, &r, &Some(MergeMode::PreferLeft));
    assert_eq!(merged, r#"{"id":1,"o":{"a":1,"b":2,"c":[1,2]},"s":"left","t":null}"#);
    let merged = pair_line(&l, &r, &Some(MergeMode::PreferRight));
    assert_eq!(merged, r#"{"id":1,"o":{"a":1,"b":2,"c":{"x":0}},"s":"left","t":null}"#);
}

#[test]
fn strings_are_escaped() {
    let l = value(r#"{"s":"a\"b\\c\n"}"#);
    let r = value(r#"{"s":"é"}"#);
    assert_eq!(pair_line(&l, &r, &None), "[{\"s\":\"a\\\"b\\\\c\\n\"},{\"s\":\"\u{e9}\"}]");
}

#[test]
fn null_keys_match_absent_keys() {
    let left = cat(&[r#"{"a":1}"#, "\n", r#"{"id":null}"#, "\n"]);
    let right = cat(&[r#"{"id":null,"b":1}"#, "\n", r#"{"b":2}"#, "\n"]);
    let opts = Opts { allow_no_key: true, merge: None };
    let out = run(&left, "id", &right, "id", opts).unwrap();
    assert_eq!(out.lines().count(), 4);
}

#[test]
fn invalid_line_is_parse_error() {
    let left = cat(&[r#"{"id":1}"#, "\n", "{oops\n"]);
    let right = cat(&[r#"{"id":1}"#, "\n"]);
    let e = run(&left, "id", &right, "id", plain()).err().unwrap();
    assert!(matches!(e, JoinError::Parse(_)));
    assert_eq!(e.message(), "Failed to parse JSON: {oops\n");
}

#[test]
fn non_object_line_is_schema_error() {
    let left = cat(&["[1,2]", "\n"]);
    let right = cat(&[r#"{"id":1}"#, "\n"]);
    let e = run(&left, "id", &right, "id", plain()).err().unwrap();
    assert!(matches!(e, JoinError::Schema(_)));
    assert_eq!(e.message(), "JSON in row is not Object type: [1,2]");
}

#[test]
fn empty_inputs_give_no_lines() {
    assert_eq!(run("", "id", NDJSON2, "id", plain()).unwrap(), "");
    assert_eq!(run(NDJSON1, "id", "", "id", plain()).unwrap(), "");
}

#[test]
fn unread_right_lines_are_not_checked() {
    let left = cat(&[r#"{"id":1}"#, "\n"]);
    let right = cat(&[r#"{"id":1}"#, "\n", r#"{"id":2}"#, "\n", "garbage\n"]);
    let out = run(&left, "id", &right, "id", plain()).unwrap();
    assert_eq!(out, cat(&[r#"[{"id":1},{"id":1}]"#, "\n"]));
}

#[test]
fn unaligned_blocks_miss_matches() {
    let left = cat(&[r#"{"id":1}"#, "\n", r#"{"id":3}"#, "\n"]);
    let right = cat(&[r#"{"id":1}"#, "\n", r#"{"id":2}"#, "\n", r#"{"id":3}"#, "\n"]);
    let out = run(&left, "id", &right, "id", plain()).unwrap();
    assert_eq!(out, cat(&[r#"[{"id":1},{"id":1}]"#, "\n"]));
}

#[test]
fn unsorted_object_keys_are_not_well_formed() {
    let sorted = value(r#"{"a":1,"b":{"c":2,"d":3}}"#);
    assert!(check_well_formed(&sorted));
    let unsorted = Json::Object(vec![
        ("b".to_string(), Json::Null),
        ("a".to_string(), Json::Null),
    ]);
    assert!(!check_well_formed(&unsorted));
}
