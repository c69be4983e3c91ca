//! Schemas, records and the index of parsed values.

use dump_json_refs::catalog::{index_records, Catalog};
use dump_json_refs::index::schema_kind;
use dump_json_refs::index_path::index_path_json;
use dump_json_refs::input::parse_json_stream;
use dump_json_refs::json::{get_field, schema_file_text, JsonValue};
use dump_json_refs::label::schema_for_values;
use dump_json_refs::records::{build_schema_output, distinct_schemas, BuildError};
use dump_json_refs::relations::relation_targets_from_field_type;
use dump_json_refs::report::{
    read_report_data, render_report, IndexTables, ReportDetail, ReportSummary,
};
use dump_json_refs::statistics::StatisticsError;
use dump_json_refs::walk::{Entry, Role};

fn object(text: &str) -> Vec<(String, JsonValue)> {
    match parse_json_stream(text).unwrap().pop() {
        Some(JsonValue::Object(fields)) => fields,
        other => panic!("no object: {:?}", other),
    }
}

fn strings(texts: &[&str]) -> Vec<String> {
    texts.iter().map(|t| t.to_string()).collect()
}

fn label(schema: &Vec<(String, String)>, name: &str) -> String {
    schema.iter().find(|f| f.0 == name).unwrap().1.clone()
}

fn single(text: &str) -> Vec<Entry> {
    vec![Entry {
        path: strings(&["root"]),
        index: None,
        collection: false,
        value: object(text),
    }]
}

fn collection(texts: &[&str]) -> Vec<Entry> {
    texts
        .iter()
        .enumerate()
        .map(|(i, t)| Entry {
            path: strings(&["root_item"]),
            index: Some(i),
            collection: true,
            value: object(t),
        })
        .collect()
}

fn index(entries: &Vec<Entry>) -> Catalog {
    let build = build_schema_output("refs", entries).unwrap();
    index_records("refs", build.records, &build.occurrences).unwrap()
}

fn object_count(c: &Catalog, path: &str) -> Option<u128> {
    c.statistics.object_counts.get(&path.to_string()).copied()
}

fn field(c: &Catalog, path: &str, name: &str) -> Option<(String, u128)> {
    c.statistics
        .field_counts
        .get(&(path.to_string(), name.to_string()))
        .map(|v| (v.0.clone(), v.1))
}

fn tables(c: &Catalog) -> IndexTables {
    let mut t = IndexTables::new();
    for (path, schema) in &c.definitions.entries {
        t.definitions.insert(path.clone(), schema_kind(schema).to_string());
    }
    for (path, n) in &c.statistics.object_counts.entries {
        t.object_counts.insert(path.clone(), *n as i64);
    }
    for (object_path, path) in &c.schema_paths.entries {
        t.schema_paths.insert(object_path.clone(), path.clone());
    }
    for ((array_path, position), path) in &c.array_index_refs.entries {
        t.array_index_refs
            .insert((array_path.clone(), index_path_json(position)), path.clone());
    }
    for (key, v) in &c.statistics.field_counts.entries {
        t.field_counts.insert(key.clone(), (v.0.clone(), v.1 as i64));
    }
    t
}

#[test]
fn build_schema_output_retains_every_walked_object_occurrence() {
    let build = build_schema_output(
        "refs",
        &single(r#"{"items":[{"meta":{"id":1,"note":null}},{"meta":{"id":2}}]}"#),
    )
    .unwrap();

    assert_eq!(build.occurrences.len(), 5);
    assert!(build.occurrences.iter().any(|o| {
        o.role == Role::Object
            && o.segments == strings(&["root", "items", "meta"])
            && get_field(&o.value, "note").is_some()
    }));
    assert!(build.occurrences.iter().any(|o| {
        o.role == Role::ArrayItem
            && o.segments == strings(&["root", "items"])
            && o.array_indexes == vec![1]
    }));
}

#[test]
fn nullable_containers_use_schema_references_and_dump_nested_schemas() {
    let root = strings(&["root"]);
    let objects = vec![
        object(r#"{"child":null,"items":null}"#),
        object(r#"{"child":{"name":"example"},"items":[{"id":1}]}"#),
    ];
    let schema = schema_for_values("refs", &root, &objects);
    assert_eq!(label(&schema, "child"), "refs/root/child.json");
    assert_eq!(label(&schema, "items"), "array(refs/root/items.json)");

    let records = distinct_schemas(
        "refs",
        &single(r#"{"child":{"name":"example"},"items":[{"id":1}]}"#),
    )
    .unwrap();
    let paths: Vec<&str> = records.iter().map(|r| r.schema_path.as_str()).collect();
    assert!(paths.contains(&"refs/root/child.json"));
    assert!(paths.contains(&"refs/root/items.json"));
}

#[test]
fn primitive_array_fields_do_not_gain_optional_suffixes() {
    let objects = vec![
        object(r#"{"tags":["stable"]}"#),
        object("{}"),
        object(r#"{"tags":null}"#),
    ];
    let schema = schema_for_values("refs", &strings(&["root"]), &objects);
    assert_eq!(label(&schema, "tags"), "array(string)");
}

#[test]
fn array_labels_distinguish_objects_nested_arrays_and_mixed_members() {
    let schema = schema_for_values(
        "refs",
        &strings(&["root"]),
        &vec![object(
            r#"{"child":{"id":1},"objects":[{"id":1}],"mixed":[{"id":1},"fallback"],"matrix":[[{"id":1}]],"capabilities":[["gpu"]]}"#,
        )],
    );
    assert_eq!(label(&schema, "child"), "refs/root/child.json");
    assert_eq!(label(&schema, "objects"), "array(refs/root/objects.json)");
    assert_eq!(label(&schema, "mixed"), "array(refs/root/mixed.json|string)");
    assert_eq!(label(&schema, "matrix"), "array(array(refs/root/matrix.json))");
    assert_eq!(label(&schema, "capabilities"), "array(array(string))");
}

#[test]
fn mixed_array_and_scalar_fields_preserve_the_array_member_label() {
    let schema = schema_for_values(
        "refs",
        &strings(&["root"]),
        &vec![
            object(r#"{"content":[{"type":"text"}]}"#),
            object(r#"{"content":"<command-message>example</command-message>"}"#),
        ],
    );
    assert_eq!(label(&schema, "content"), "array(refs/root/content.json)|string");
}

#[test]
fn nested_object_arrays_preserve_full_index_paths() {
    let records = distinct_schemas(
        "refs",
        &collection(&[r#"{"nested":[{"id":1}]}"#, r#"{"nested":[{"id":2}]}"#]),
    )
    .unwrap();
    let nested = records
        .iter()
        .find(|r| r.schema_path == "refs/root_item/nested.json")
        .unwrap();
    assert_eq!(nested.array_parent.as_deref(), Some("refs/root_item/nested.json"));
    assert_eq!(nested.array_index_paths, vec![vec![0, 0], vec![1, 0]]);
}

#[test]
fn sqlite_stores_nested_array_index_paths_as_json() {
    let c = index(&collection(&[
        r#"{"nested":[{"id":1}]}"#,
        r#"{"nested":[{"id":2}]}"#,
    ]));
    let stored: Vec<String> = c
        .array_index_refs
        .entries
        .iter()
        .filter(|row| row.0 .0 == "refs/root_item/nested.json")
        .map(|row| index_path_json(&row.0 .1))
        .collect();
    assert_eq!(stored, vec!["[0,0]", "[1,0]"]);
}

#[test]
fn sqlite_counts_object_fields_by_the_resolved_canonical_schema() {
    let c = index(&single(
        r#"{"items":[{"meta":{"id":1,"note":null}},{"meta":{"id":2}}]}"#,
    ));
    assert_eq!(object_count(&c, "refs/root/items/meta.json"), Some(2));
    assert_eq!(field(&c, "refs/root/items/meta.json", "id").unwrap().1, 2);
    assert_eq!(field(&c, "refs/root/items/meta.json", "note").unwrap().1, 1);
    assert_eq!(object_count(&c, "refs/root/items.json"), Some(2));
}

#[test]
fn sqlite_does_not_count_refs_mut_array_containers() {
    let c = index(&single(r#"{"items":[{"id":1},{"label":"second"}]}"#));
    assert_eq!(object_count(&c, "refs/root/items.json"), None);
}

#[test]
fn sqlite_counts_homogeneous_root_collection_items_via_array_index_refs() {
    let c = index(&collection(&[r#"{"kind":"snapshot"}"#, r#"{"kind":"event"}"#]));
    assert_eq!(object_count(&c, "refs/root_item.json"), Some(2));
    assert_eq!(field(&c, "refs/root_item.json", "kind").unwrap().1, 2);
}

#[test]
fn writes_pretty_json_files_by_default() {
    let build = build_schema_output("refs", &single(r#"{"id":1,"name":"example"}"#)).unwrap();
    let record = build
        .records
        .iter()
        .find(|r| r.schema_path == "refs/root.json")
        .unwrap();
    let written = schema_file_text(&record.schema, false);
    assert!(written.contains('\n'));
    assert!(written.contains("  \"id\""));
    assert_eq!(written, "{\n  \"id\": \"number\",\n  \"name\": \"string\"\n}\n");
    assert_eq!(
        object(&written),
        vec![
            ("id".to_string(), JsonValue::Text("number".to_string())),
            ("name".to_string(), JsonValue::Text("string".to_string())),
        ]
    );
}

#[test]
fn writes_compact_json_files_with_compact_output_flag() {
    let build = build_schema_output("refs", &single(r#"{"id":1,"name":"example"}"#)).unwrap();
    let record = build
        .records
        .iter()
        .find(|r| r.schema_path == "refs/root.json")
        .unwrap();
    assert_eq!(
        schema_file_text(&record.schema, true),
        "{\"id\":\"number\",\"name\":\"string\"}\n"
    );
}

#[test]
fn sqlite_stores_field_types_from_canonical_schema() {
    let c = index(&single(
        r#"{"id":1,"optional":null,"items":[{"kind":"a"},{"kind":"b"}]}"#,
    ));
    assert_eq!(
        field(&c, "refs/root.json", "items").unwrap().0,
        "array(refs/root/items.json)"
    );
    assert_eq!(field(&c, "refs/root/items.json", "kind").unwrap().0, "string");
}

#[test]
fn refs_mut_schemas_are_marked_heterogeneous_and_skipped_for_statistics() {
    let c = index(&single(r#"{"items":[{"kind":"a"},{"other":"b"}]}"#));
    let container = "refs/root/items.json".to_string();
    let schema = c.definitions.get(&container).unwrap();
    assert_eq!(schema_kind(schema), "heterogeneous");
    assert_eq!(
        *schema,
        vec![("$refs_mut".to_string(), "refs/root/items/".to_string())]
    );
    assert_eq!(object_count(&c, &container), None);
    assert!(c
        .statistics
        .field_counts
        .entries
        .iter()
        .all(|row| row.0 .0 != container));

    let report = read_report_data(&tables(&c));
    let rendered = render_report(
        &report,
        &ReportSummary::FromSqlite {
            sqlite_path: "refs/schemas.sqlite".to_string(),
        },
        ReportDetail::CompactStdout,
    );
    assert!(rendered.contains("refs/root/items.json\theterogeneous\t0\n"));
}

#[test]
fn heterogeneous_items_are_named_by_their_first_positions() {
    let c = index(&single(r#"{"items":[{"b":1},{"a":1},{"b":2}]}"#));
    let first = "refs/root/items/0.json".to_string();
    let second = "refs/root/items/1.json".to_string();
    assert_eq!(object_count(&c, &first), Some(2));
    assert_eq!(object_count(&c, &second), Some(1));
    let key = ("refs/root/items.json".to_string(), vec![2]);
    assert_eq!(c.array_index_refs.get(&key), Some(&first));
    let kinds: Vec<&str> = c.relations.iter().map(|r| r.relation_kind.as_str()).collect();
    assert_eq!(kinds, vec!["heterogeneous_array_item", "heterogeneous_array_item"]);
    assert_eq!(c.relations[0].from_schema_path, first);
    assert_eq!(c.relations[0].to_schema_path, "refs/root.json");
    assert_eq!(c.relations[0].via_array_path.as_deref(), Some("refs/root/items.json"));
}

#[test]
fn top_level_variants_have_no_container() {
    let c = index(&collection(&[r#"{"a":1}"#, r#"{"b":1}"#]));
    let paths: Vec<&str> = c.definitions.entries.iter().map(|row| row.0.as_str()).collect();
    assert_eq!(paths, vec!["refs/root_item/0.json", "refs/root_item/1.json"]);
}

#[test]
fn equal_schemas_share_a_record() {
    let c = index(&single(r#"{"b":{"id":1},"a":{"id":2}}"#));
    let link = "refs/root/b.json".to_string();
    let target = "refs/root/a.json".to_string();
    assert_eq!(c.schema_paths.get(&link), Some(&target));
    assert_eq!(object_count(&c, &target), Some(2));
    assert_eq!(object_count(&c, &link), None);
}

#[test]
fn labels_of_scalars_and_missing_fields() {
    let schema = schema_for_values(
        "refs",
        &strings(&["root"]),
        &vec![
            object(r#"{"a":1,"b":true,"c":null,"d":"x","e":1,"f":{"x":1},"g":[]}"#),
            object(r#"{"a":null,"b":null,"c":null,"e":"y","f":2,"g":[null,1]}"#),
        ],
    );
    assert_eq!(label(&schema, "a"), "number?");
    assert_eq!(label(&schema, "b"), "boolean|null");
    assert_eq!(label(&schema, "c"), "null");
    assert_eq!(label(&schema, "d"), "string?");
    assert_eq!(label(&schema, "e"), "number|string");
    assert_eq!(label(&schema, "f"), "number|object");
    assert_eq!(label(&schema, "g"), "array(number?)");
}

#[test]
fn an_empty_array_has_the_label_empty() {
    let schema = schema_for_values(
        "refs",
        &strings(&["root"]),
        &vec![object(r#"{"a":[],"b":[[]]}"#)],
    );
    assert_eq!(label(&schema, "a"), "array(empty)");
    assert_eq!(label(&schema, "b"), "array(array(empty))");
}

#[test]
fn a_member_of_a_collection_needs_a_position() {
    let entries = vec![Entry {
        path: strings(&["root_item"]),
        index: None,
        collection: true,
        value: object("{}"),
    }];
    let error = build_schema_output("refs", &entries).unwrap_err();
    assert_eq!(error, BuildError::RootCollectionItemMissingIndexPath);
    assert_eq!(error.message(), "root collection item missing index path");
    assert_eq!(
        BuildError::ArrayItemMissingIndexPath.message(),
        "array item missing index path"
    );
}

#[test]
fn occurrences_without_records_are_faults() {
    let build = build_schema_output("refs", &single(r#"{"a":1}"#)).unwrap();
    let error = index_records("refs", Vec::new(), &build.occurrences).err().unwrap();
    assert_eq!(error.message(), "missing schema_paths entry for refs/root.json");

    let build = build_schema_output("refs", &collection(&[r#"{"a":1}"#])).unwrap();
    let error = index_records("refs", Vec::new(), &build.occurrences).err().unwrap();
    assert_eq!(
        error.message(),
        "missing array_index_refs entry for refs/root_item.json at [0]"
    );

    let other = build_schema_output("refs", &single(r#"{"b":1}"#)).unwrap();
    let build = build_schema_output("refs", &single(r#"{"a":1}"#)).unwrap();
    let error = index_records("refs", other.records, &build.occurrences).err().unwrap();
    assert_eq!(
        error.message(),
        "missing field type for refs/root.json.a in canonical schema"
    );
    assert_eq!(
        StatisticsError::MissingSchema("x.json".to_string()).message(),
        "missing in-memory schema for x.json"
    );
}

#[test]
fn relations_of_objects_and_nested_arrays() {
    let c = index(&single(r#"{"child":{"x":1},"matrix":[[{"y":1}]]}"#));
    assert_eq!(c.relations.len(), 2);
    let by_field = |name: &str| c.relations.iter().find(|r| r.field_name == name).unwrap();
    let child = by_field("child");
    assert_eq!(child.relation_kind, "object_ref");
    assert_eq!(child.cardinality, "one_to_one_candidate");
    assert!(child.required && child.fk_candidate && !child.mixed);
    let matrix = by_field("matrix");
    assert_eq!(matrix.relation_kind, "nested_array_item");
    assert_eq!(matrix.nested_array_depth, 2);
    assert!(!matrix.fk_candidate);
    assert_eq!(matrix.from_schema_path, "refs/root/matrix.json");
}

#[test]
fn targets_of_labels() {
    let targets = relation_targets_from_field_type("array(b.json| a.json |string)?");
    let found: Vec<(&str, usize, bool, bool)> = targets
        .iter()
        .map(|t| (t.target_schema_path.as_str(), t.array_depth, t.mixed, t.optional))
        .collect();
    assert_eq!(
        found,
        vec![("a.json", 1, true, true), ("b.json", 1, true, true)]
    );
    assert!(relation_targets_from_field_type("number|string?").is_empty());
    assert_eq!(relation_targets_from_field_type("a.json|a.json").len(), 1);
}
