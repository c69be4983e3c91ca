//! Reports and graphs.

use dump_json_refs::graph::{
    dot_id, dot_string, load_graph_data, mermaid_direction, mermaid_label, relation_edge_label,
    render_dot_graph, render_graph, render_mermaid_graph, resolve_graph_output_path, DotNode,
    DotRelation, GraphFormat, GraphOutput,
};
use dump_json_refs::report::{
    count_tables, read_report_data, render_report, render_summary, render_summary_counts,
    FieldCount, IndexTables, ReportData, ReportDetail, ReportSummary, SchemaArrayIndexRef,
    SchemaCount, SchemaObjectPath,
};

fn s(t: &str) -> String {
    t.to_string()
}

#[test]
fn report_fields_are_sorted_by_count_desc_and_include_field_type() {
    let report = ReportData {
        schemas: vec![SchemaCount {
            schema_path: s("refs/root.json"),
            schema_kind: s("object"),
            object_count: 2,
        }],
        object_paths: vec![SchemaObjectPath {
            schema_path: s("refs/root.json"),
            object_path: s("refs/root.json"),
        }],
        array_index_refs: Vec::new(),
        fields: vec![
            FieldCount {
                schema_path: s("refs/root.json"),
                field_name: s("frequent"),
                field_type: s("string"),
                field_count: 10,
            },
            FieldCount {
                schema_path: s("refs/root.json"),
                field_name: s("rare"),
                field_type: s("boolean?"),
                field_count: 1,
            },
        ],
    };

    let rendered = render_report(
        &report,
        &ReportSummary::Generated {
            execution_time_ms: 12,
            input_source: s("stdin"),
        },
        ReportDetail::CompactStdout,
    );

    assert!(rendered.contains("schema_path\tfield_name\tfield_type\tfield_count\n"));
    assert!(rendered.contains("refs/root.json\tfrequent\tstring\t10\n"));
    assert!(rendered.contains("refs/root.json\trare\tboolean?\t1\n"));
    assert!(!rendered.contains("[schema_array_index_refs]"));
    assert!(!rendered.contains("[schema_object_paths]"));
    assert!(rendered.ends_with(
        "[summary]\nschema_count\t1\nfield_count\t2\nobject_path_mapping_count\t1\nschema_alias_count\t0\narray_index_ref_count\t0\nexecution_time_ms\t12\ninput\tstdin\n"
    ));
}

#[test]
fn full_file_report_includes_object_paths_and_array_index_refs() {
    let report = ReportData {
        schemas: vec![SchemaCount {
            schema_path: s("refs/root_item.json"),
            schema_kind: s("object"),
            object_count: 2,
        }],
        object_paths: vec![
            SchemaObjectPath {
                schema_path: s("refs/root_item.json"),
                object_path: s("refs/root_item.json"),
            },
            SchemaObjectPath {
                schema_path: s("refs/root_item.json"),
                object_path: s("refs/alias.json"),
            },
        ],
        array_index_refs: vec![SchemaArrayIndexRef {
            schema_path: s("refs/root_item.json"),
            array_path: s("refs/root_item.json"),
            array_index_path: s("[0]"),
        }],
        fields: Vec::new(),
    };
    let summary = ReportSummary::FromSqlite {
        sqlite_path: s("refs/schemas.sqlite"),
    };

    let compact = render_report(&report, &summary, ReportDetail::CompactStdout);
    assert!(compact.contains("[schema_aliases]\n"));
    assert!(compact.contains("refs/root_item.json\trefs/alias.json\n"));
    assert!(!compact.contains("[schema_object_paths]"));
    assert!(!compact.contains("[schema_array_index_refs]"));

    let full = render_report(&report, &summary, ReportDetail::FullFile);
    assert!(full.contains("[schema_object_paths]\n"));
    assert!(full.contains("[schema_array_index_refs]\n"));
    assert!(full.contains("refs/root_item.json\trefs/root_item.json\t[0]\n"));

    let summary = render_summary(&report, &summary, Some("out.txt"));
    assert_eq!(
        summary,
        "[summary]\nschema_count\t1\nfield_count\t0\nobject_path_mapping_count\t2\nschema_alias_count\t1\narray_index_ref_count\t1\nsqlite_path\trefs/schemas.sqlite\nreport\tout.txt\n"
    );
}

fn tables() -> IndexTables {
    let mut t = IndexTables::new();
    for p in ["refs/high.json", "refs/low.json", "refs/container.json"] {
        t.schema_paths.insert(s(p), s(p));
    }
    t.definitions.insert(s("refs/high.json"), s("object"));
    t.definitions.insert(s("refs/low.json"), s("object"));
    t.definitions.insert(s("refs/container.json"), s("heterogeneous"));
    t.object_counts.insert(s("refs/high.json"), 100);
    t.object_counts.insert(s("refs/low.json"), 50);
    t.field_counts
        .insert((s("refs/high.json"), s("rare")), (s("string"), 1));
    t.field_counts
        .insert((s("refs/high.json"), s("common")), (s("number"), 90));
    t.field_counts
        .insert((s("refs/low.json"), s("very_common")), (s("boolean"), 999));
    t
}

#[test]
fn report_data_orders_schemas_by_object_count_and_groups_fields_by_schema_order() {
    let report = read_report_data(&tables());
    let schemas: Vec<&str> = report.schemas.iter().map(|x| x.schema_path.as_str()).collect();
    assert_eq!(
        schemas,
        vec!["refs/high.json", "refs/low.json", "refs/container.json"]
    );
    let fields: Vec<(&str, &str, i64)> = report
        .fields
        .iter()
        .map(|f| (f.schema_path.as_str(), f.field_name.as_str(), f.field_count))
        .collect();
    assert_eq!(
        fields,
        vec![
            ("refs/high.json", "common", 90),
            ("refs/high.json", "rare", 1),
            ("refs/low.json", "very_common", 999),
        ]
    );
}

#[test]
fn counts_of_a_summary_come_from_the_tables() {
    let mut t = tables();
    t.schema_paths.insert(s("refs/other.json"), s("refs/low.json"));
    t.field_counts
        .insert((s("refs/unknown.json"), s("x")), (s("number"), 1));
    let report = read_report_data(&t);
    assert_eq!(report.fields.len(), 3);
    let counts = count_tables(&t, &report);
    assert_eq!(counts.fields, 4);
    assert_eq!(counts.aliases, 1);
    assert_eq!(counts.object_paths, 4);
    let text = render_summary_counts(
        counts,
        &ReportSummary::FromSqlite {
            sqlite_path: s("x"),
        },
        None,
    );
    assert!(text.contains("field_count\t4\n"));
}

fn relation(kind: &str, from: &str, to: &str, field: &str, candidate: bool) -> DotRelation {
    DotRelation {
        from_schema_path: s(from),
        to_schema_path: s(to),
        relation_kind: s(kind),
        fk_owner: s("child"),
        fk_candidate: candidate,
        field_name: s(field),
        cardinality: s("many_to_one"),
        required: true,
        mixed: false,
        nested_array_depth: 2,
        via_schema_path: None,
        via_array_path: Some(s("a|b")),
        parent_object_count: 1,
        child_object_count: 2,
        field_count: 3,
    }
}

fn node(path: &str) -> DotNode {
    DotNode {
        schema_path: s(path),
        schema_kind: s("object"),
        object_count: 4,
    }
}

#[test]
fn mermaid_graphs() {
    let nodes = vec![node("a"), node("b")];
    let relations = vec![
        relation("nested_array_item", "a", "b", "f", false),
        relation("array_item", "b", "a", "g", true),
        relation("array_item", "b", "missing", "h", true),
    ];
    assert_eq!(
        render_mermaid_graph(&nodes, &relations, "TB", true),
        "```mermaid\nflowchart TB\n  n0[\"a<br/>kind=object<br/>object_count=4\"]\n  n1[\"b<br/>kind=object<br/>object_count=4\"]\n\n  n0 -. \"f[*][*]<br/>nested_array_item<br/>many_to_one<br/>required<br/>depth=2\" .-> n1\n  n1 -->|\"g[*]<br/>array_item<br/>many_to_one<br/>required<br/>depth=2\"| n0\n```\n"
    );
    assert_eq!(
        render_mermaid_graph(&Vec::new(), &Vec::new(), "XX", false),
        "flowchart LR\n"
    );
    assert_eq!(mermaid_direction("BT"), "BT");
    assert_eq!(mermaid_label("a&\"|"), "a&amp;&quot;&#124;");
}

#[test]
fn dot_graphs() {
    let nodes = vec![node("a")];
    let relations = vec![relation("nested_array_item", "a", "a", "f", false)];
    assert_eq!(
        render_dot_graph(&nodes, &relations, "RL"),
        "digraph schema_fk {\n  rankdir=RL;\n  node [shape=box];\n\n  \"a\" [label=\"a\\nkind=object\\nobject_count=4\", schema_kind=\"object\", object_count=\"4\"];\n\n  \"a\" -> \"a\" [label=\"f[*][*]\", relation_kind=\"nested_array_item\", fk_owner=\"child\", fk_candidate=\"false\", field_name=\"f\", cardinality=\"many_to_one\", required=\"true\", mixed=\"false\", nested_array_depth=\"2\", parent_object_count=\"1\", child_object_count=\"2\", field_count=\"3\", via_array_path=\"a|b\", style=\"dashed\"];\n}\n"
    );
    assert_eq!(dot_id("?"), "LR");
    assert_eq!(dot_string("a\\\"\n"), "\"a\\\\\\\"\\n\"");
    assert_eq!(
        relation_edge_label(&relation("object_ref", "a", "b", "f", true)),
        "f"
    );
    assert_eq!(
        render_graph(&Vec::new(), &Vec::new(), "LR", GraphFormat::Dot),
        "digraph schema_fk {\n  rankdir=LR;\n  node [shape=box];\n\n}\n"
    );
}

#[test]
fn graphs_show_candidates_unless_asked_for_more() {
    let t = tables();
    let relations = vec![
        relation("nested_array_item", "refs/low.json", "refs/high.json", "x", false),
        relation("array_item", "refs/high.json", "refs/low.json", "z", true),
        relation("array_item", "refs/high.json", "refs/low.json", "y", true),
    ];
    let (nodes, kept) = load_graph_data(&t, &relations, false);
    let fields: Vec<&str> = kept.iter().map(|r| r.field_name.as_str()).collect();
    assert_eq!(fields, vec!["y", "z"]);
    let paths: Vec<&str> = nodes.iter().map(|n| n.schema_path.as_str()).collect();
    assert_eq!(paths, vec!["refs/high.json", "refs/low.json"]);
    let (_, kept) = load_graph_data(&t, &relations, true);
    assert_eq!(kept.len(), 3);
    assert_eq!(kept[2].field_name, "x");
}

#[test]
fn graph_paths() {
    let resolve = |asked: bool, output: Option<&str>, parent: Option<&str>| {
        resolve_graph_output_path(asked, output, "refs", parent, GraphFormat::MermaidMd)
    };
    assert!(resolve(false, Some("x"), None).is_none());
    assert!(matches!(resolve(true, Some("x"), None), Some(GraphOutput::File(p)) if p == "x"));
    assert!(matches!(
        resolve(true, Some("__default_graph_path__"), Some("db")),
        Some(GraphOutput::Directory(d, n)) if d == "db" && n == "schema.md"
    ));
    assert!(matches!(
        resolve(true, None, None),
        Some(GraphOutput::Directory(d, _)) if d == "refs"
    ));
    for end in ["/", "//", "/.", "/./", "/.//."] {
        let path = format!("__default_graph_path__{end}");
        assert_eq!(std::path::Path::new(&path), std::path::Path::new("__default_graph_path__"));
        assert!(matches!(
            resolve(true, Some(&path), None),
            Some(GraphOutput::Directory(d, _)) if d == "refs"
        ));
    }
    for path in ["./__default_graph_path__", "__default_graph_path__/..", "__default_graph_path__."] {
        assert_ne!(std::path::Path::new(path), std::path::Path::new("__default_graph_path__"));
        assert!(matches!(resolve(true, Some(path), None), Some(GraphOutput::File(p)) if p == path));
    }
    assert_eq!(GraphFormat::Mermaid.default_filename(), "schema.mmd");
    assert_eq!(GraphFormat::Dot.default_filename(), "schema.dot");
}
