//! What holds of all inputs, on some of them.

use dump_json_refs::catalog::{finalize_streamed_jsonl, index_records, Catalog};
use dump_json_refs::input::{
    checked_record_values, checked_text_values, normalize_fallback, normalize_input,
    parse_json_stream, InputError,
};
use dump_json_refs::json::JsonValue;
use dump_json_refs::jsonl::{JsonlError, JsonlStream, NextLine};
use dump_json_refs::label::schema_for_values;
use dump_json_refs::path::{path_segment, reference_path};
use dump_json_refs::records::{build_schema_output, merge_by_text, SchemaBuild};
use dump_json_refs::relations::{
    relation_targets_from_field_type, relation_targets_from_label, without_repeats,
};
use dump_json_refs::walk::Entry;

fn object(text: &str) -> Vec<(String, JsonValue)> {
    match parse_json_stream(text).unwrap().pop() {
        Some(JsonValue::Object(fields)) => fields,
        other => panic!("no object: {:?}", other),
    }
}

fn build(text: &str) -> SchemaBuild {
    let entry = Entry {
        path: vec!["root".to_string()],
        index: None,
        collection: false,
        value: object(text),
    };
    build_schema_output("refs", &vec![entry]).unwrap()
}

fn index(text: &str) -> Catalog {
    let built = build(text);
    index_records("refs", built.records, &built.occurrences).unwrap()
}

#[test]
fn a_relation_is_stored_once_with_its_smallest_depth() {
    let c = index(r#"{"deep":[[{"x":1},[{"x":2}]]]}"#);
    let schema = c.definitions.get(&"refs/root.json".to_string()).unwrap();
    assert_eq!(schema[0].1, "array(array(array(refs/root/deep.json)|refs/root/deep.json))");
    let targets = relation_targets_from_field_type(&schema[0].1);
    assert_eq!(targets.len(), 2);
    assert_eq!(c.relations.len(), 1);
    assert_eq!(c.relations[0].relation_kind, "nested_array_item");
    assert_eq!(c.relations[0].nested_array_depth, 2);
}

#[test]
fn relations_without_intermediate_paths_are_all_kept() {
    let twice = || {
        let mut rows = index(r#"{"child":{"x":1},"list":[{"y":1}]}"#).relations;
        rows.extend(index(r#"{"child":{"x":1},"list":[{"y":1}]}"#).relations);
        rows
    };
    let all = twice();
    assert_eq!(all.len(), 4);
    let kept: Vec<String> =
        without_repeats(all).into_iter().map(|row| row.relation_kind).collect();
    assert_eq!(kept, vec!["object_ref", "array_item", "object_ref"]);
}

#[test]
fn every_object_is_counted_once() {
    let text = r#"{"a":{"x":1},"b":[{"x":1},{"y":2}],"c":[[{"x":3}]]}"#;
    let walked = build(text).occurrences.len();
    let c = index(text);
    let counted: u128 = c.statistics.object_counts.entries.iter().map(|row| row.1).sum();
    assert_eq!(walked, 5);
    assert_eq!(counted, 5);
    for row in &c.statistics.field_counts.entries {
        let objects = c.statistics.object_counts.get(&row.0 .0).unwrap();
        assert!(row.1 .1 <= *objects);
    }
}

#[test]
fn object_and_array_labels_are_plain() {
    let values = vec![
        object(r#"{"child":{"x":1},"list":[1]}"#),
        object(r#"{"child":null,"list":null}"#),
        object("{}"),
    ];
    let schema = schema_for_values("refs", &vec!["root".to_string()], &values);
    assert_eq!(schema[0], ("child".to_string(), "refs/root/child.json".to_string()));
    assert_eq!(schema[1], ("list".to_string(), "array(number)".to_string()));
}

#[test]
fn reference_labels_lead_to_their_schemas() {
    for (label, depth) in [
        ("refs/a(b)/c.json", 0),
        ("array(refs/a(b)/c.json)", 1),
        ("array(array(refs/a(b)/c.json))", 2),
    ] {
        let targets = relation_targets_from_field_type(label);
        assert_eq!(targets.len(), 1);
        assert_eq!(targets[0].target_schema_path, "refs/a(b)/c.json");
        assert_eq!(targets[0].array_depth, depth);
        assert!(!targets[0].mixed && !targets[0].optional);
    }
}

#[test]
fn arrays_deepen_targets() {
    let label = "a.json|array(b(c).json|string)| d.json";
    let inner = relation_targets_from_label(label, 3, true);
    let outer = relation_targets_from_label(&format!("array({label})"), 2, true);
    assert_eq!(inner.len(), 3);
    assert_eq!(format!("{inner:?}"), format!("{outer:?}"));
    assert_eq!(inner[1].array_depth, 4);

    let deepest = relation_targets_from_label("array(x.json|string)", usize::MAX - 1, false);
    assert_eq!(deepest.len(), 1);
    assert_eq!(deepest[0].array_depth, usize::MAX);
}

#[test]
fn reference_paths_are_distinct() {
    let of = |segments: &[&str]| {
        let segments: Vec<String> = segments.iter().map(|s| s.to_string()).collect();
        reference_path("refs", &segments)
    };
    assert_ne!(of(&["a/b"]), of(&["a", "b"]));
    assert_ne!(of(&["a%2Fb"]), of(&["a/b"]));
    assert_eq!(path_segment("%/"), "%25%2F");
}

#[test]
fn equal_items_share_one_file() {
    let recs = build(r#"{"list":[{"x":1},{"x":2},{"x":3}]}"#).records;
    let list: Vec<_> = recs.iter().filter(|r| r.array_parent.is_some()).collect();
    assert_eq!(list.len(), 1);
    assert_eq!(list[0].schema_path, "refs/root/list.json");
    assert_eq!(list[0].array_index_paths, vec![vec![0], vec![1], vec![2]]);
}

#[test]
fn candidates_are_merged_by_their_texts() {
    let schema = || vec![("x".to_string(), "number".to_string())];
    let item = |text: &str, path: &str| (text.to_string(), (path.to_string(), schema()));
    let recs = merge_by_text(vec![item("t", "b.json"), item("s", "c.json"), item("t", "a.json")]);
    assert_eq!(recs.len(), 2);
    assert_eq!(recs[0].object_paths, vec!["c.json"]);
    assert_eq!(recs[1].schema_path, "a.json");
    assert_eq!(recs[1].object_paths, vec!["a.json", "b.json"]);
}

#[test]
fn errors_in_read_values_are_refused() {
    let fault = || Some((false, "broken".to_string()));
    match checked_text_values(vec![JsonValue::Null], fault()) {
        Err(InputError::InvalidJson(cause)) => assert_eq!(cause, "broken"),
        _ => panic!("taken"),
    }
    assert_eq!(checked_text_values(vec![JsonValue::Null], None).unwrap().len(), 1);
    match checked_record_values(vec![], fault(), 7) {
        Err(e) => assert_eq!(e.message(), "invalid JSONL input at line 7"),
        Ok(_) => panic!("taken"),
    }
    let lines = || Err(InputError::InvalidJsonl(2, "worse".to_string()));
    match normalize_fallback(InputError::InvalidJson("broken".to_string()), lines(), true, "b") {
        Err(e) => {
            assert_eq!(
                e.message(),
                "invalid JSON input; JSONL fallback also failed: invalid JSONL input at line 2"
            );
            assert_eq!(e.cause().unwrap(), "broken");
        }
        Ok(_) => panic!("taken"),
    }
    let values = vec![JsonValue::Object(object("{}"))];
    let entries =
        normalize_fallback(InputError::InvalidJson(String::new()), Ok(values), true, "b").unwrap();
    assert_eq!(entries[0].path, vec!["b_ref"]);
}

#[test]
fn records_are_taken_up_to_a_fault() {
    let values = vec![JsonValue::Object(object(r#"{"x":1}"#))];
    let mut s = JsonlStream::new("refs", true, "b");
    let end = Some((true, "end".to_string()));
    assert_eq!(s.take_record("{\"x\":1} {", 1, &values, end).unwrap(), NextLine::Stop);
    assert_eq!(s.finish().unwrap().object_totals.entries.len(), 0);

    let mut s = JsonlStream::new("refs", true, "b");
    let end = Some((true, "end".to_string()));
    match s.take_record("{\"x\":1} {\n", 3, &values, end) {
        Err(JsonlError::Input(e)) => assert_eq!(e.message(), "invalid JSONL input at line 3"),
        _ => panic!("taken"),
    }

    let mut s = JsonlStream::new("refs", true, "b");
    let mixed = vec![JsonValue::Object(object("{}")), JsonValue::Null];
    match s.take_record("{} null", 1, &mixed, None) {
        Err(JsonlError::Input(e)) => assert_eq!(e.message(), "JSONL values must be objects"),
        _ => panic!("taken"),
    }
}

fn read_at_once(text: &str) -> Result<Catalog, String> {
    let entries = normalize_input(text, true, true, "b").map_err(|e| e.message())?;
    let built = build_schema_output("refs", &entries).map_err(|e| e.message().to_string())?;
    index_records("refs", built.records, &built.occurrences).map_err(|e| e.message())
}

fn streamed(text: &str) -> Catalog {
    let mut s = JsonlStream::new("refs", true, "b");
    for line in text.split_inclusive('\n') {
        assert_eq!(s.feed(line).unwrap(), NextLine::Read);
    }
    finalize_streamed_jsonl(&s.finish().unwrap())
}

fn index_of(c: &Catalog) -> String {
    format!(
        "{:?}\n{:?}\n{:?}\n{:?}\n{:?}",
        c.definitions.entries,
        c.schema_paths.entries,
        c.array_index_refs.entries,
        c.statistics.object_counts.entries,
        c.statistics.field_counts.entries
    )
}

#[test]
fn streams_store_the_same_where_records_share_a_path() {
    // The field is an object in one line and an array of objects in the other.
    let text = "{\"a\":{\"x\":{\"k\":1}}}\r\n{\"a\":[{\"x\":{\"k\":2}}]}\n";
    let whole = read_at_once(text).unwrap();
    let other = streamed(text);
    assert_eq!(index_of(&whole), index_of(&other));
    assert_eq!(whole.statistics.object_counts.get(&"refs/b_ref/a.json".to_string()), Some(&2));
    // Read at once, both records of the path relate to the object below it.
    assert_eq!(whole.relations.iter().filter(|r| r.field_name == "x").count(), 2);
    assert_eq!(other.relations.iter().filter(|r| r.field_name == "x").count(), 1);
}

#[test]
fn arrays_in_any_order_override_alike() {
    // The first variant of the items is stored where their field `0_0` has its items.
    let text = "{\"a\":[{\"0_0\":[{\"0_0\":1}]},{\"y\":1}],\"a-\":[{\"z\":1}]}\n";
    let whole = read_at_once(text).unwrap();
    assert_eq!(index_of(&whole), index_of(&streamed(text)));
    let shared = whole.definitions.get(&"refs/b_ref/a/0_0.json".to_string()).unwrap();
    assert_eq!(shared[0].1, "number");
}

#[test]
fn reading_at_once_fails_where_a_record_lost_its_fields() {
    let text = "{\"a\":{\"x\":1}}\n{\"a\":[{\"y\":1}]}\n";
    assert_eq!(
        read_at_once(text).err().unwrap(),
        "missing field type for refs/b_ref/a.json.x in canonical schema"
    );
}

#[test]
fn lines_read_alike_with_every_line_end() {
    let text = "\0{\"x\":1}\r\n\n{\"x\":2} {\"x\":3}\n  \n{\"x\":4}";
    let c = streamed(text);
    assert_eq!(index_of(&read_at_once(text).unwrap()), index_of(&c));
    assert_eq!(c.statistics.object_counts.get(&"refs/b_ref.json".to_string()), Some(&4));
}

#[test]
fn a_cut_off_record_adds_nothing() {
    let mut s = JsonlStream::new("refs", true, "b");
    assert_eq!(s.feed("{\"x\":1}\n").unwrap(), NextLine::Read);
    assert_eq!(s.feed("{\"x\":").unwrap(), NextLine::Stop);
    let c = finalize_streamed_jsonl(&s.finish().unwrap());
    assert_eq!(index_of(&c), index_of(&streamed("{\"x\":1}\n")));
}

#[test]
fn a_stream_succeeds_and_names_the_line_of_an_error() {
    let mut s = JsonlStream::new("out", true, "tail");
    assert_eq!(s.feed("{\"kind\":\"snapshot\"}\n").unwrap(), NextLine::Read);
    assert_eq!(s.feed("{\"kind\":\"event\"}\n").unwrap(), NextLine::Read);
    assert_eq!(s.feed("{\"kind\":\"partial").unwrap(), NextLine::Stop);
    let c = finalize_streamed_jsonl(&s.finish().unwrap());
    assert_eq!(c.statistics.object_counts.entries, vec![("out/tail_ref.json".to_string(), 2)]);
    assert_eq!(c.array_index_refs.entries.len(), 2);

    let mut s = JsonlStream::new("out", true, "tail");
    assert_eq!(s.feed("{\"kind\":1}\n").unwrap(), NextLine::Read);
    assert_eq!(s.feed("\n").unwrap(), NextLine::Read);
    match s.feed("{\"kind\"\n") {
        Err(JsonlError::Input(e)) => assert_eq!(e.message(), "invalid JSONL input at line 3"),
        _ => panic!("taken"),
    }
}
