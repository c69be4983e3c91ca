//! Reading input, paths and texts.

use dump_json_refs::index_path::{index_path_json, push_padded_index, CompactIndexPath};
use dump_json_refs::input::{
    input_file_base_and_jsonl, normalize_input, parse_json_stream, parse_jsonl_stream,
};
use dump_json_refs::json::{canonical_json, schema_file_text, JsonValue};
use dump_json_refs::kinds::{value_type, ValueTypeCounts};
use dump_json_refs::label::primitive_label;
use dump_json_refs::outdir::{
    link_or_target, link_paths, reject_unsafe_outdir, symlink_target,
};
use dump_json_refs::path::{child_path_base, index_path_file_stem, path_segment, reference_path};
use dump_json_refs::records::Record;
use dump_json_refs::relations::{array_inner, split_top_level_union};

fn text(t: &str) -> JsonValue {
    JsonValue::Text(t.to_string())
}

fn kind(t: &str) -> JsonValue {
    JsonValue::Object(vec![("kind".to_string(), text(t))])
}

#[test]
fn jsonl_strips_leading_nul_padding_per_record() {
    let values =
        parse_jsonl_stream("\0\0{\"kind\":\"snapshot\"}\n{\"kind\":\"event\"}\n").unwrap();
    assert_eq!(values, vec![kind("snapshot"), kind("event")]);
}

#[test]
fn jsonl_rejects_a_control_byte_inside_a_record() {
    let error = parse_jsonl_stream("{\"kind\":\"bad\0value\"}\n").unwrap_err();
    assert!(error.message().contains("invalid JSONL input at line 1"));
}

#[test]
fn stdin_style_input_falls_back_to_jsonl_when_later_record_has_nul_padding() {
    let entries = normalize_input(
        "{\"kind\":\"snapshot\"}\n\0\0{\"kind\":\"event\"}\n",
        false,
        false,
        "root",
    )
    .unwrap();
    assert_eq!(entries.len(), 2);
    assert_eq!(entries[0].path, vec!["root_item"]);
    assert_eq!(entries[0].index, Some(0));
    assert_eq!(entries[1].index, Some(1));
}

#[test]
fn values_keep_their_kinds_and_their_fields_in_order() {
    let values = parse_json_stream("{\"b\":[1.50,true,null],\"a\":\"x\\u0041\"} 7").unwrap();
    assert_eq!(
        values,
        vec![
            JsonValue::Object(vec![
                ("a".to_string(), text("xA")),
                (
                    "b".to_string(),
                    JsonValue::Array(vec![
                        JsonValue::Number("1.5".to_string()),
                        JsonValue::Bool(true),
                        JsonValue::Null,
                    ])
                ),
            ]),
            JsonValue::Number("7".to_string()),
        ]
    );
}

#[test]
fn inputs_that_are_refused() {
    let message = |t: &str, jsonl: bool| {
        normalize_input(t, jsonl, false, "root")
            .err()
            .map(|e| e.message())
            .unwrap()
    };
    assert_eq!(message(" \n\t", false), "input is empty");
    assert_eq!(message("[1]", false), "top-level array values must be objects");
    assert_eq!(message("1 2", false), "top-level JSON values must be objects");
    assert_eq!(message("5", false), "top-level JSON value must be an object or array");
    assert_eq!(message("5\n", true), "JSONL values must be objects");
    assert_eq!(
        message("{\"a\"\n{}", false),
        "invalid JSON input; JSONL fallback also failed: invalid JSONL input at line 1"
    );
    assert_eq!(
        message("{}\n\0\n", true),
        "invalid JSONL input at line 2: record contains only NUL padding"
    );
    assert_eq!(
        parse_json_stream("{").unwrap_err().message(),
        "invalid JSON input"
    );
}

#[test]
fn top_level_names() {
    let entries = normalize_input("{\"a\":1}", false, true, "data").unwrap();
    assert_eq!(entries[0].path, vec!["data"]);
    assert_eq!(entries[0].index, None);
    let entries = normalize_input("[{},{}]", false, true, "data").unwrap();
    assert_eq!(entries[1].path, vec!["data_ref"]);
    assert_eq!(entries[1].index, Some(1));
    let entries = normalize_input("{} {}", false, false, "data").unwrap();
    assert_eq!(entries[1].path, vec!["root_item"]);
    assert!(entries[1].collection);
}

#[test]
fn file_names_tell_the_base_and_the_kind() {
    let base = |name: &str| input_file_base_and_jsonl(Some(name), "x").unwrap();
    assert_eq!(base("a.jsonl"), ("a".to_string(), true));
    assert_eq!(base("a.json"), ("a".to_string(), false));
    assert_eq!(base("data.txt"), ("data".to_string(), false));
    assert_eq!(base("a.tar.gz"), ("a.tar".to_string(), false));
    assert_eq!(base("plain"), ("plain".to_string(), false));
    assert_eq!(base(".hidden"), (".hidden".to_string(), false));
    assert_eq!(base(".hidden.txt"), (".hidden".to_string(), false));
    assert_eq!(base("a."), ("a".to_string(), false));
    assert_eq!(base("a.json.jsonl"), ("a.json".to_string(), true));
    assert_eq!(
        input_file_base_and_jsonl(None, "a/..").unwrap_err().message(),
        "invalid input path: a/.."
    );
}

#[test]
fn paths_escape_percent_and_slash() {
    assert_eq!(path_segment("a/b%c"), "a%2Fb%25c");
    assert_eq!(
        reference_path("refs", &vec!["r".to_string(), "x/y".to_string()]),
        "refs/r/x%2Fy"
    );
    assert_eq!(child_path_base("refs/r", "x/y"), "refs/r/x%2Fy");
    assert_eq!(index_path_file_stem(&vec![3, 0, 12]), "3_0_12");
}

#[test]
fn positions_as_texts() {
    assert_eq!(index_path_json(&vec![1, 20, 3]), "[1,20,3]");
    assert_eq!(index_path_json(&vec![]), "[]");
    let mut key = "old".to_string();
    let four = CompactIndexPath::from_slice(&vec![1, 2, 3, 4]);
    four.write_sort_key(&mut key);
    assert_eq!(
        key,
        "00000000000000000001/00000000000000000002/00000000000000000003/00000000000000000004"
    );
    assert_eq!(four.len(), 4);
    let mut out = "x".to_string();
    push_padded_index(&mut out, 42);
    assert_eq!(out, "x00000000000000000042");
    let key_of = |p: Vec<usize>| {
        let mut k = String::new();
        CompactIndexPath::from_slice(&p).write_sort_key(&mut k);
        k
    };
    assert!(key_of(vec![9]) < key_of(vec![10]));
    assert!(key_of(vec![1]) < key_of(vec![1, 0]));
    assert!(key_of(vec![1, 5]) < key_of(vec![2]));
}

#[test]
fn counts_of_kinds() {
    let mut counts = ValueTypeCounts::single(&JsonValue::Null);
    counts.add(ValueTypeCounts::single(&text("x")));
    counts.add(ValueTypeCounts::single(&JsonValue::Null));
    assert_eq!(counts.null, 2);
    assert_eq!(counts.type_names(), vec!["null", "string"]);
}

#[test]
fn labels_split_outside_of_brackets() {
    assert_eq!(
        split_top_level_union("array(a|b)|c"),
        vec!["array(a|b)", "c"]
    );
    assert_eq!(split_top_level_union(""), vec![""]);
    assert_eq!(array_inner("array(x)"), Some("x"));
    assert_eq!(array_inner("array(x"), None);
}

#[test]
fn unsafe_output_directories_are_refused() {
    for outdir in ["", "/", ".", ".."] {
        assert_eq!(
            reject_unsafe_outdir(outdir),
            Err(format!("refusing unsafe output directory: {}", outdir))
        );
    }
    assert_eq!(reject_unsafe_outdir("refs"), Ok(()));
}

#[test]
fn links_stand_at_the_other_object_paths() {
    let record = Record {
        schema_path: "a.json".to_string(),
        object_paths: ["a.json", "b.json", "c/d.json"].map(String::from).to_vec(),
        schema: vec![],
        array_parent: None,
        array_index_paths: vec![],
    };
    assert_eq!(link_paths(&record), vec!["b.json", "c/d.json"]);
}

#[test]
fn links_are_relative() {
    assert_eq!(symlink_target("refs/root/a.json", "refs/root/b"), "../a.json");
    assert_eq!(symlink_target("refs/a.json", "refs/x/y"), "../../a.json");
    assert_eq!(link_or_target(None, "refs/a.json"), "refs/a.json");
}

#[test]
fn a_value_ends_where_something_else_begins() {
    let e = parse_json_stream("1a").err().unwrap();
    assert_eq!(e.message(), "invalid JSON input");
    assert!(e.cause().unwrap().starts_with("trailing characters"));
    assert_eq!(parse_json_stream("1 2\n").unwrap(), parse_json_stream("1 2").unwrap());
}

#[test]
fn kinds_and_labels_of_single_values() {
    let values = parse_json_stream("null true 1 \"t\" [] {}").unwrap();
    let names: Vec<&str> = values.iter().map(value_type).collect();
    assert_eq!(names, vec!["null", "boolean", "number", "string", "array", "object"]);
    assert_eq!(primitive_label(&vec![&values[2], &values[0]], 2), "number?");
    assert_eq!(primitive_label(&vec![&values[2]], 2), "number?");
    assert_eq!(primitive_label(&vec![&values[2], &values[3]], 2), "number|string");
    assert_eq!(primitive_label(&vec![&values[0]], 2), "null");
}

#[test]
fn schema_texts_escape_what_json_escapes() {
    let schema = vec![
        ("a\"\\/\n\r\t\u{8}\u{c}".to_string(), "\u{0}\u{1f}\u{7f}\u{e9}".to_string()),
        ("b".to_string(), "".to_string()),
    ];
    assert_eq!(
        canonical_json(&schema),
        "{\"a\\\"\\\\/\\n\\r\\t\\b\\f\":\"\\u0000\\u001f\u{7f}\u{e9}\",\"b\":\"\"}"
    );
    let plain = vec![
        ("a".to_string(), "number".to_string()),
        ("b".to_string(), "string".to_string()),
    ];
    assert_eq!(
        schema_file_text(&plain, false),
        "{\n  \"a\": \"number\",\n  \"b\": \"string\"\n}\n"
    );
    assert_eq!(schema_file_text(&vec![], false), "{}\n");
    assert_eq!(schema_file_text(&vec![], true), "{}\n");
    assert_ne!(canonical_json(&schema), canonical_json(&plain));
}
