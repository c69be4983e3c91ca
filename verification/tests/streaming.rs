//! Streamed lines of JSON against values read at once.

use dump_json_refs::catalog::{finalize_streamed_jsonl, index_records, Catalog};
use dump_json_refs::index::schema_kind;
use dump_json_refs::index_path::{index_path_json, CompactIndexPath};
use dump_json_refs::input::{normalize_input, parse_json_stream, InputError};
use dump_json_refs::interns::StreamInterns;
use dump_json_refs::json::JsonValue;
use dump_json_refs::jsonl::{JsonlError, JsonlStream, NextLine};
use dump_json_refs::records::build_schema_output;
use dump_json_refs::recorder::StreamError;
use dump_json_refs::report::{
    count_tables, read_report_data, render_report, render_report_body, render_summary_counts,
    IndexTables, ReportDetail, ReportSummary,
};
use dump_json_refs::stream::{
    record_streamed_object_occurrence, record_streamed_object_occurrence_to_acc, StreamAcc,
    StreamTables,
};
use dump_json_refs::tables::{role_storage_name, Tables};
use dump_json_refs::walk::Role;

fn object(text: &str) -> Vec<(String, JsonValue)> {
    match parse_json_stream(text).unwrap().pop() {
        Some(JsonValue::Object(fields)) => fields,
        other => panic!("no object: {:?}", other),
    }
}

fn dump_tables(t: &Tables<String, String>) -> String {
    let mut out = String::new();
    for row in &t.object_totals.entries {
        out.push_str(&format!("object_totals\t{}\t{}\n", row.0, row.1));
    }
    for row in &t.object_field_facts.entries {
        out.push_str(&format!("object_field_facts\t{:?}\t{:?}\n", row.0, row.1));
    }
    for row in &t.array_member_facts.entries {
        out.push_str(&format!("array_member_facts\t{:?}\t{:?}\n", row.0, row.1));
    }
    for row in &t.item_schema_counts.entries {
        out.push_str(&format!(
            "item_schema_counts\t{}\t{}\t{}\t{:?}\t{}\n",
            role_storage_name(row.0 .0 .0),
            row.0 .0 .1,
            row.0 .1,
            row.1.schema,
            row.1.object_count
        ));
    }
    for row in &t.item_schema_index_refs.entries {
        let mut position = String::new();
        let mut key = String::new();
        let compact = CompactIndexPath::from_slice(&row.0 .1);
        compact.write_json_string(&mut position);
        compact.write_sort_key(&mut key);
        out.push_str(&format!(
            "item_schema_index_refs\t{}\t{}\t{}\t{}\t{}\n",
            role_storage_name(row.0 .0 .0),
            row.0 .0 .1,
            row.1,
            position,
            key
        ));
    }
    for row in &t.item_schema_field_counts.entries {
        out.push_str(&format!("item_schema_field_counts\t{:?}\t{}\n", row.0, row.1));
    }
    out
}

fn dump_catalog(c: &Catalog) -> String {
    let mut out = String::new();
    for row in &c.schema_paths.entries {
        out.push_str(&format!("schema_paths\t{:?}\n", row));
    }
    for row in &c.array_index_refs.entries {
        out.push_str(&format!("array_index_refs\t{:?}\n", row));
    }
    for row in &c.definitions.entries {
        out.push_str(&format!("schema_definitions\t{:?}\n", row));
    }
    for row in &c.statistics.object_counts.entries {
        out.push_str(&format!("schema_object_counts\t{:?}\n", row));
    }
    for row in &c.statistics.field_counts.entries {
        out.push_str(&format!("schema_field_counts\t{:?}\n", row));
    }
    let mut relations: Vec<String> = c.relations.iter().map(|r| format!("{:?}", r)).collect();
    relations.sort();
    for r in relations {
        out.push_str(&format!("schema_relations\t{}\n", r));
    }
    out
}

fn stream(outdir: &str, base: &str, lines: &[&str]) -> Result<Catalog, JsonlError> {
    let mut s = JsonlStream::new(outdir, true, base);
    for line in lines {
        if s.feed(line)? == NextLine::Stop {
            break;
        }
    }
    let tables = s.finish().map_err(JsonlError::Input)?;
    Ok(finalize_streamed_jsonl(&tables))
}

#[test]
fn streaming_jsonl_generation_matches_existing_jsonl_pipeline() {
    let lines = [
        "\0\0{\"kind\":\"snapshot\",\"payload\":{\"id\":1,\"tags\":[\"a\"],\"items\":[{\"sku\":\"a\",\"qty\":1}]}}\n",
        "{\"kind\":\"event\",\"payload\":{\"id\":2,\"tags\":[],\"items\":[{\"sku\":\"b\"},{\"sku\":\"c\",\"note\":null}]}}\n",
        "{\"kind\":\"event\",\"payload\":{\"id\":\"mixed\",\"items\":[{\"sku\":\"d\",\"qty\":4},[ {\"sku\":\"nested\"} ]]}}\n",
    ];
    let entries = normalize_input(&lines.concat(), true, true, "sample").unwrap();
    let build = build_schema_output("refs", &entries).unwrap();
    let whole = index_records("refs", build.records, &build.occurrences).unwrap();
    let streamed = stream("refs", "sample", &lines).unwrap();
    assert_eq!(dump_catalog(&whole), dump_catalog(&streamed));
    assert!(dump_catalog(&whole).contains("refs/sample_ref/payload/items/1_0.json"));
}

fn tables_of(c: &Catalog) -> IndexTables {
    let mut t = IndexTables::new();
    for (path, schema) in &c.definitions.entries {
        t.definitions.insert(path.clone(), schema_kind(schema).to_string());
    }
    for (path, n) in &c.statistics.object_counts.entries {
        t.object_counts.insert(path.clone(), *n as i64);
    }
    for (object_path, path) in &c.schema_paths.entries {
        t.schema_paths.insert(object_path.clone(), path.clone());
    }
    for ((array_path, position), path) in &c.array_index_refs.entries {
        t.array_index_refs.insert((array_path.clone(), index_path_json(position)), path.clone());
    }
    for (key, v) in &c.statistics.field_counts.entries {
        t.field_counts.insert(key.clone(), (v.0.clone(), v.1 as i64));
    }
    t
}

#[test]
fn streamed_reports_match_reports_read_at_once() {
    let lines = [
        "\0\0{\"kind\":\"snapshot\",\"payload\":{\"id\":1,\"tags\":[\"a\"],\"items\":[{\"sku\":\"a\",\"qty\":1}]}}\n",
        "{\"kind\":\"event\",\"payload\":{\"id\":2,\"tags\":[],\"items\":[{\"sku\":\"b\"},{\"sku\":\"c\",\"note\":null}]}}\n",
        "{\"kind\":\"event\",\"payload\":{\"id\":\"mixed\",\"items\":[{\"sku\":\"d\",\"qty\":4},[ {\"sku\":\"nested\"} ]]}}\n",
    ];
    let entries = normalize_input(&lines.concat(), true, true, "sample").unwrap();
    let build = build_schema_output("refs", &entries).unwrap();
    let whole = tables_of(&index_records("refs", build.records, &build.occurrences).unwrap());
    let streamed = tables_of(&stream("refs", "sample", &lines).unwrap());
    let summary = ReportSummary::FromSqlite { sqlite_path: "refs/schemas.sqlite".to_string() };
    for detail in [ReportDetail::CompactStdout, ReportDetail::FullFile] {
        let report = read_report_data(&streamed);
        let counts = count_tables(&streamed, &report);
        let mut text = render_report_body(&report, detail);
        text.push_str(&render_summary_counts(counts, &summary, None));
        assert_eq!(render_report(&read_report_data(&whole), &summary, detail), text);
        assert!(text.contains("refs/sample_ref/payload.json\tobject\t3\n"));
    }
}

#[test]
fn an_accumulator_adds_to_tables() {
    let first = object(r#"{"a":1,"b":{"x":[1]},"c":[{"y":1}]}"#);
    let second = object(r#"{"a":"t","b":{"x":[null],"z":1},"c":[{"y":1}]}"#);
    let record = |acc: &mut StreamAcc, value: &Vec<(String, JsonValue)>, n: usize| {
        let role = Role::RootCollection;
        record_streamed_object_occurrence_to_acc(acc, "r", value, role, &vec![n]).unwrap()
    };
    let mut both = StreamAcc::new();
    record(&mut both, &first, 0);
    record(&mut both, &second, 1);
    let mut one = StreamAcc::new();
    record(&mut one, &first, 0);
    let mut other = StreamAcc::new();
    record(&mut other, &second, 1);
    let joined = other.flush_into(one.flush()).unwrap();
    assert_eq!(dump_tables(&joined), dump_tables(&both.flush()));
    assert_eq!(joined.object_totals.get(&"r/b".to_string()), Some(&2));

    let mut full = Tables::new();
    full.object_totals.insert("r/b".to_string(), i64::MAX);
    let mut more = StreamAcc::new();
    record(&mut more, &first, 0);
    assert!(more.flush_into(full).is_none());
}

#[test]
fn known_names_keep_their_numbers() {
    let mut acc = StreamAcc::new();
    let a = acc.intern_path("a").unwrap();
    let b = acc.intern_path("b").unwrap();
    assert_ne!(a, b);
    assert_eq!(acc.intern_path("a").unwrap(), a);
    let mut names = StreamInterns::new();
    let root = names.intern_path("r").unwrap();
    let key = names.intern_field("x/y").unwrap();
    let child = names.child_path(root, key).unwrap();
    assert_eq!(names.resolve_path(child), "r/x%2Fy");
    assert_eq!(names.resolve_field(key), "x/y");
    assert_eq!(names.child_path(root, key), Some(child));
}

#[test]
fn many_items_in_interleaved_arrays_are_all_listed() {
    let n = 3000;
    let mut s = JsonlStream::new("refs", true, "b");
    for i in 0..n {
        let line = format!("{{\"l\":[{{\"k{}\":1}}],\"m\":[{{\"x\":{}}}]}}\n", i % 2, i);
        assert_eq!(s.feed(&line).unwrap(), NextLine::Read);
    }
    let c = finalize_streamed_jsonl(&s.finish().unwrap());
    assert_eq!(c.array_index_refs.entries.len(), 3 * n);
    let at = ("refs/b_ref/l.json".to_string(), vec![7, 0]);
    assert_eq!(c.array_index_refs.get(&at).unwrap(), "refs/b_ref/l/1_0.json");
}

#[test]
fn streaming_jsonl_skips_incomplete_trailing_record() {
    let complete = ["{\"kind\":\"snapshot\"}\n", "{\"kind\":\"event\"}\n"];
    let truncated = [
        "{\"kind\":\"snapshot\"}\n",
        "{\"kind\":\"event\"}\n",
        "{\"kind\":\"partial",
    ];
    assert_eq!(
        dump_catalog(&stream("refs", "tail", &complete).unwrap()),
        dump_catalog(&stream("refs", "tail", &truncated).unwrap())
    );
}

#[test]
fn stream_acc_flush_matches_existing_sqlite_upsert_path() {
    let root_base = "refs/root_item";
    let value = object(
        r#"{"kind":"event","payload":{"id":1,"items":[{"sku":"a"},{"sku":"b","qty":2}],"matrix":[[{"nested":true}]]}}"#,
    );
    let array_indexes = vec![7];

    let mut direct = StreamTables::new();
    record_streamed_object_occurrence(
        &mut direct,
        root_base,
        &value,
        Role::RootCollection,
        &array_indexes,
    )
    .unwrap();

    let mut acc = StreamAcc::new();
    record_streamed_object_occurrence_to_acc(
        &mut acc,
        root_base,
        &value,
        Role::RootCollection,
        &array_indexes,
    )
    .unwrap();

    let rows = dump_tables(&direct.into_tables());
    assert_eq!(rows, dump_tables(&acc.flush()));
    assert!(rows.contains("object_totals\trefs/root_item/payload\t1\n"));
    assert!(rows.contains(
        "item_schema_index_refs\tarray_item\trefs/root_item/payload/matrix\t{\"nested\":\"boolean\"}\t[7,0,0]\t00000000000000000007/00000000000000000000/00000000000000000000\n"
    ));
}

#[test]
fn names_with_slashes_stay_apart() {
    let value = object(r#"{"payload":{"a/b":{"x":1},"a":{"b":{"x":1}},"a%2Fb":{"x":1}}}"#);
    let mut acc = StreamAcc::new();
    record_streamed_object_occurrence_to_acc(&mut acc, "refs/r", &value, Role::RootCollection, &vec![0])
        .unwrap();
    let t = acc.flush();
    let paths: Vec<&str> = t.object_totals.entries.iter().map(|row| row.0.as_str()).collect();
    assert_eq!(
        paths,
        vec![
            "refs/r/payload",
            "refs/r/payload/a",
            "refs/r/payload/a%252Fb",
            "refs/r/payload/a%2Fb",
            "refs/r/payload/a/b",
        ]
    );
}

#[test]
fn an_empty_stream_is_refused() {
    assert!(matches!(
        stream("refs", "x", &["\n", "  \n"]),
        Err(JsonlError::Input(InputError::Empty))
    ));
}

#[test]
fn a_line_of_padding_is_refused() {
    match stream("refs", "x", &["{}\n", "\0\0\n"]) {
        Err(JsonlError::Input(e)) => assert_eq!(
            e.message(),
            "invalid JSONL input at line 2: record contains only NUL padding"
        ),
        _ => panic!("accepted"),
    }
}

#[test]
fn a_value_that_is_no_object_is_refused_ahead_of_a_later_error() {
    match stream("refs", "x", &["{} 5 {bad\n"]) {
        Err(JsonlError::Input(e)) => assert_eq!(e.message(), "JSONL values must be objects"),
        _ => panic!("accepted"),
    }
}

#[test]
fn a_broken_line_with_a_line_end_is_refused() {
    match stream("refs", "x", &["{}\n", "{\"a\":\n"]) {
        Err(JsonlError::Input(e)) => {
            assert_eq!(e.message(), "invalid JSONL input at line 2");
            assert!(e.cause().unwrap().contains("EOF"));
        }
        _ => panic!("accepted"),
    }
}

#[test]
fn limits_have_messages() {
    assert_eq!(StreamError::TooManyFacts.message(), "too many facts to count");
    assert_eq!(
        StreamError::TooManyNames.message(),
        "too many paths and field names to number"
    );
}
