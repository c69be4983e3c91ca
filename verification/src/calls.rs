//! What calls give, in terms of what they are given.

use crate::catalog;
use crate::catalog::Catalog;
use crate::graph;
use crate::graph::{DotNode, DotRelation, GraphFormat, GraphOutput};
use crate::graph_laws;
use crate::index;
use crate::index_laws;
use crate::index_path;
use crate::index_path::CompactIndexPath;
use crate::input;
use crate::input::InputError;
use crate::input_laws;
use crate::json;
use crate::json::{Json, JsonValue};
use crate::jsonl;
use crate::jsonl::{JsonlError, JsonlStream, NextLine};
use crate::kinds;
use crate::kinds::ValueTypeCounts;
use crate::label;
use crate::label_laws;
use crate::order;
use crate::ordmap::OrdMap;
use crate::outdir;
use crate::path;
use crate::path_laws;
use crate::record_laws;
use crate::recorder;
use crate::recorder::{RecorderModel, StreamError};
use crate::records;
use crate::records::{BuildError, Rec, Record, SchemaBuild};
use crate::relation_laws;
use crate::relations;
use crate::relations::SchemaRelation;
use crate::report;
use crate::report::{
    IndexTables, ReportData, ReportDetail, ReportSummary, SchemaObjectPath, SummaryCounts,
};
use crate::report_laws;
use crate::statistics;
use crate::same_text;
use crate::statistics::{Statistics, StatisticsError};
use crate::stream;
use crate::stream::{StreamAcc, StreamTables};
use crate::tables;
use crate::tables::{Log, Tables};
use crate::text;
use crate::walk;
use crate::walk::{Entry, Occ, Occurrence, Role};
use crate::walk_laws;
use vstd::prelude::*;

verus! {

/// The part stands somewhere in the text.
pub open spec fn holds_text(t: Seq<char>, part: Seq<char>) -> bool {
    exists|a: Seq<char>, b: Seq<char>| t == #[trigger] (a + part + b)
}

/// The number that a map has for a key, zero if it has none.
pub open spec fn number_in(counts: OrdMap<String, u128>, p: Seq<char>) -> int {
    match counts.map().contains_key(p) {
        true => counts.map()[p] as int,
        false => 0,
    }
}

/// Relations say of their field whether all objects of the schema have it, and link an object
/// that is not always there as one that may be missing.
pub proof fn law_relations_are_required_where_every_object_has_the_field(
    records: &Vec<Record>,
    statistics: &Statistics,
    rows: Vec<SchemaRelation>,
    i: int,
)
    requires
        call_ensures(relations::write_schema_relations, (records, statistics), rows),
        statistics.object_counts.wf(),
        statistics.field_counts.wf(),
        0 <= i < rows@.len(),
    ensures
        ({
            let r = rows@[i];
            let k = (r.parent_schema_path@, r.field_name@);
            &&& r.required <==> r.parent_object_count > 0 && r.field_count == r.parent_object_count
            &&& r.parent_object_count == number_in(
                statistics.object_counts,
                r.parent_schema_path@,
            )
            &&& r.child_object_count == number_in(statistics.object_counts, r.child_schema_path@)
            &&& statistics.field_counts.map().contains_key(k)
            &&& r.field_count == statistics.field_counts.map()[k].1
            &&& r.relation_kind@ == "object_ref"@ && !r.required ==> r.cardinality@
                == "zero_or_one_to_one_candidate"@
            &&& r.relation_kind@ == "object_ref"@ && r.required ==> r.cardinality@
                == "one_to_one_candidate"@
            &&& r.relation_kind@ == "object_ref"@ ==> r.from_schema_path@ == r.parent_schema_path@
                && r.to_schema_path@ == r.child_schema_path@ && r.fk_owner@ == "parent"@
            &&& r.relation_kind@ != "object_ref"@ ==> r.from_schema_path@ == r.child_schema_path@
                && r.to_schema_path@ == r.parent_schema_path@ && r.fk_owner@ == "child"@
        }),
{
    let recs = records::records_model(records@);
    let objects = statistics::counts_of(statistics.object_counts);
    let fields = statistics::field_counts_of(statistics.field_counts);
    relation_laws::law_relations_tell_counts(recs, objects, fields, rows@, i);
    relation_laws::law_relations_lead_to_the_owner(recs, objects, fields, rows@, i);
    relation_laws::lemma_kinds_of_links();
}

/// Every relation comes from a field of a record, and has its name and its label.
pub proof fn law_relations_have_their_field(
    records: &Vec<Record>,
    statistics: &Statistics,
    rows: Vec<SchemaRelation>,
    i: int,
) -> (o: relation_laws::Origin)
    requires
        call_ensures(relations::write_schema_relations, (records, statistics), rows),
        0 <= i < rows@.len(),
    ensures
        0 <= o.rec < records@.len(),
        records@[o.rec].schema_path@ == rows@[i].parent_schema_path@,
        0 <= o.field < records@[o.rec].schema@.len(),
        records@[o.rec].schema@[o.field].0@ == rows@[i].field_name@,
        records@[o.rec].schema@[o.field].1@ == rows@[i].field_type@,
{
    let recs = records::records_model(records@);
    let objects = statistics::counts_of(statistics.object_counts);
    let fields = statistics::field_counts_of(statistics.field_counts);
    let o = relation_laws::law_relations_come_from_fields(recs, objects, fields, rows@, i);
    assert(recs[o.rec] == records::record_model(records@[o.rec]));
    o
}

/// The schema of objects names every field of each of them in ascending order. The label of a
/// field whose values are arrays of scalars of one kind is `array(..)` around the name of that
/// kind, and the label of one that holds scalars of one kind in each object is that name.
pub proof fn law_schemas_label_scalars(
    outdir: &str,
    segments: &Vec<String>,
    objects: &Vec<Vec<(String, JsonValue)>>,
    r: Vec<(String, String)>,
    i: int,
)
    requires
        call_ensures(label::schema_for_values, (outdir, segments, objects), r),
        0 <= i < r@.len(),
    ensures
        ({
            let values = label::values_of(label::field_lists_model(objects@), r@[i].0@);
            let members = label::members(values);
            &&& values.len() > 0 && (forall|k: int|
                0 <= k < values.len() ==> (#[trigger] values[k]) is Array) && members.len() > 0
                && !(members[0] is Array) && !(members[0] is Object) && (forall|k: int|
                0 <= k < members.len() ==> kinds::kind_name(#[trigger] members[k])
                    == kinds::kind_name(members[0])) ==> r@[i].1@ == "array("@ + kinds::kind_name(
                members[0],
            ) + ")"@
            &&& values.len() == objects@.len() && values.len() > 0 && !(values[0] is Array) && !(
            values[0] is Object) && (forall|k: int|
                0 <= k < values.len() ==> kinds::kind_name(#[trigger] values[k])
                    == kinds::kind_name(values[0])) ==> r@[i].1@ == kinds::kind_name(values[0])
        }),
{
    let models = label::field_lists_model(objects@);
    let prefix = path::child_prefix(outdir@, text::models(segments@));
    let name = r@[i].0@;
    let values = label::values_of(models, name);
    let members = label::members(values);
    let base = prefix + path::segment(name);
    assert(json::schema_model(r@)[i] == (r@[i].0@, r@[i].1@));
    label_laws::law_schemas_name_every_field(prefix, models, i, name);
    if values.len() > 0 && (forall|k: int|
        0 <= k < values.len() ==> (#[trigger] values[k]) is Array) && members.len() > 0 && !(
    members[0] is Array) && !(members[0] is Object) && (forall|k: int|
        0 <= k < members.len() ==> kinds::kind_name(#[trigger] members[k]) == kinds::kind_name(
            members[0],
        )) {
        assert(values[0] is Array);
        let parts = label_laws::law_array_fields(base, values, models.len() as int);
        label_laws::law_members_of_one_kind(base, members);
        let array = "array("@ + label::member_label(base, label::profile(members)) + ")"@;
        assert forall|k: int| 0 <= k < parts.len() implies #[trigger] parts[k] == array by {
            assert(parts.contains(parts[k]));
        }
        if parts.len() > 1 {
            order::lemma_before_excludes(parts[0], parts[1]);
        }
    }
    if values.len() == objects@.len() && values.len() > 0 && !(values[0] is Array) && !(
    values[0] is Object) && (forall|k: int|
        0 <= k < values.len() ==> kinds::kind_name(#[trigger] values[k]) == kinds::kind_name(
            values[0],
        )) {
        label_laws::lemma_kinds_differ();
        assert forall|k: int| 0 <= k < values.len() implies !((#[trigger] values[k]) is Array) && !(
        values[k] is Object) by {
            assert(kinds::kind_name(values[k]) == kinds::kind_name(values[0]));
        }
        let parts = label_laws::law_scalar_fields(base, values, models.len() as int);
        let only = kinds::kind_name(values[0]);
        assert forall|k: int| 0 <= k < parts.len() implies #[trigger] parts[k] == only by {
            assert(parts.contains(parts[k]));
        }
        if parts.len() > 1 {
            order::lemma_before_excludes(parts[0], parts[1]);
        }
    }
}

/// An input whose text is one array of objects has as many entries as the array has members, and
/// each entry has the fields and the position of its member.
pub proof fn law_every_member_of_an_array_is_read(
    text: &str,
    file_mode: bool,
    base: &str,
    items: Seq<Json>,
    r: Result<Vec<Entry>, InputError>,
)
    requires
        call_ensures(input::normalize_input, (text, false, file_mode, base), r),
        text::trimmed(text@).len() > 0,
        json::json_values(text@) == seq![Ok::<_, (bool, Seq<char>)>(Json::Array(items))],
        forall|i: int| 0 <= i < items.len() ==> (#[trigger] items[i]) is Object,
    ensures
        r is Ok,
        input_laws::are_members(r->Ok_0@, items, input_laws::name_of_members(file_mode, base@)),
{
    input_laws::law_array_inputs_give_every_member(text@, items, file_mode, base@, r);
}

/// JSON values that are one array of objects, or several objects, or lines of objects, give one
/// entry for each object.
pub proof fn law_every_object_is_an_entry(
    values: Vec<JsonValue>,
    file_mode: bool,
    base: &str,
    r: Result<Vec<Entry>, InputError>,
    s: Result<Vec<Entry>, InputError>,
)
    requires
        call_ensures(input::normalize_json_values, (values, file_mode, base), r),
        call_ensures(input::normalize_jsonl_values, (values, file_mode, base), s),
    ensures
        ({
            let models = json::items_model(values@);
            let name = input_laws::name_of_members(file_mode, base@);
            let objects = forall|i: int| 0 <= i < models.len() ==> (#[trigger] models[i]) is Object;
            &&& models.len() == 1 && models[0] is Array ==> {
                let items = models[0]->Array_0;
                &&& r is Ok <==> forall|i: int|
                    0 <= i < items.len() ==> (#[trigger] items[i]) is Object
                &&& r is Ok ==> input_laws::are_members(r->Ok_0@, items, name)
            }
            &&& models.len() > 1 ==> {
                &&& r is Ok <==> objects
                &&& r is Ok ==> input_laws::are_members(r->Ok_0@, models, name)
            }
            &&& s is Ok <==> models.len() > 0 && objects
            &&& s is Ok ==> input_laws::are_members(s->Ok_0@, models, name)
        }),
{
    let models = json::items_model(values@);
    if models.len() == 1 && models[0] is Array {
        assert(models =~= seq![Json::Array(models[0]->Array_0)]);
        input_laws::law_arrays_give_every_member(
            models,
            models[0]->Array_0,
            file_mode,
            base@,
            r,
        );
    }
    if models.len() > 1 {
        input_laws::law_several_values_give_every_one(models, file_mode, base@, r);
    }
    input_laws::law_lines_give_every_value(models, file_mode, base@, s);
}

/// The base name and the kind of an input file come from its name.
pub proof fn law_input_files(
    name: &str,
    shown: &str,
    stem: Seq<char>,
    r: Result<(String, bool), InputError>,
    s: Result<(String, bool), InputError>,
)
    requires
        call_ensures(input::input_file_base_and_jsonl, (Some(name), shown), r),
        call_ensures(input::input_file_base_and_jsonl, (None, shown), s),
    ensures
        r is Ok,
        name@ == stem + ".jsonl"@ ==> r->Ok_0.0@ == stem && r->Ok_0.1,
        name@ == stem + ".json"@ ==> r->Ok_0.0@ == stem && !r->Ok_0.1,
        s is Err && s->Err_0 is InvalidPath && s->Err_0->InvalidPath_0@ == shown@,
{
    input_laws::law_file_names(stem, Seq::empty());
}

/// In a Graphviz graph every relation has a line that leads from the schema that it starts at to
/// the schema that it ends at.
pub proof fn law_dot_graphs_lead_from_start_to_end(
    nodes: &Vec<DotNode>,
    relations: &Vec<DotRelation>,
    rankdir: &str,
    t: String,
    i: int,
)
    requires
        call_ensures(graph::render_dot_graph, (nodes, relations, rankdir), t),
        0 <= i < relations@.len(),
    ensures
        holds_text(
            t@,
            "  "@ + graph::dot_quoted(relations@[i].from_schema_path@) + " -> "@
                + graph::dot_quoted(relations@[i].to_schema_path@) + " [label="@
                + graph::dot_quoted(graph::edge_label(relations@[i])),
        ),
{
    let r = relations@[i];
    let before = graph::dot_graph(nodes@, relations@.take(i), rankdir@);
    let front = before.take(before.len() - 2);
    let line = graph::dot_edge(r);
    let start = "  "@ + graph::dot_quoted(r.from_schema_path@) + " -> "@ + graph::dot_quoted(
        r.to_schema_path@,
    ) + " [label="@ + graph::dot_quoted(graph::edge_label(r));
    graph_laws::law_every_relation_has_its_dot_line(nodes@, relations@, rankdir@, i);
    let rest = lemma_dot_start(r);
    lemma_within(t@, front, start, rest);
}

proof fn lemma_within(t: Seq<char>, front: Seq<char>, part: Seq<char>, rest: Seq<char>)
    requires
        text::has_prefix(t, front + (part + rest)),
    ensures
        holds_text(t, part),
{
    let whole = front + (part + rest);
    let end = rest + t.skip(whole.len() as int);
    assert(t =~= t.take(whole.len() as int) + t.skip(whole.len() as int));
    assert(t =~= front + part + end);
}

/// How the line of a relation starts.
proof fn lemma_dot_start(r: DotRelation) -> (rest: Seq<char>)
    ensures
        graph::dot_edge(r) == "  "@ + graph::dot_quoted(r.from_schema_path@) + " -> "@
            + graph::dot_quoted(r.to_schema_path@) + " [label="@ + graph::dot_quoted(
            graph::edge_label(r),
        ) + rest,
{
    let attributes = graph::dot_attributes(r);
    let head = "  "@ + graph::dot_quoted(r.from_schema_path@) + " -> "@ + graph::dot_quoted(
        r.to_schema_path@,
    );
    let label = graph::dot_quoted(graph::edge_label(r));
    graph_laws::law_dot_edges_lead_from_start_to_end(r);
    assert(attributes.len() > 1 && attributes[0] == "label="@ + label) by {
        graph_laws::law_dot_edges_tell_every_property(r);
    }
    text::lemma_joined_first(attributes, ", "@);
    let more = ", "@ + text::joined(attributes.drop_first(), ", "@);
    let rest = more + "];\n"@;
    assert(text::joined(attributes, ", "@) =~= "label="@ + label + more);
    assert(" ["@ + "label="@ =~= " [label="@) by {
        reveal_strlit(" [");
        reveal_strlit("label=");
        reveal_strlit(" [label=");
    }
    lemma_regroup(head, " ["@, "label="@, label, more, "];\n"@);
    rest
}

proof fn lemma_regroup(
    a: Seq<char>,
    b: Seq<char>,
    c: Seq<char>,
    d: Seq<char>,
    e: Seq<char>,
    f: Seq<char>,
)
    ensures
        a + b + (c + d + e) + f == a + (b + c) + d + (e + f),
{
    assert(a + b + (c + d + e) + f =~= a + (b + c) + d + (e + f));
}

/// A graph has the text of its format; in Markdown it stands in a fence.
pub proof fn law_graphs_are_rendered_by_format(
    nodes: &Vec<DotNode>,
    relations: &Vec<DotRelation>,
    rankdir: &str,
    dot: String,
    mermaid: String,
    markdown: String,
    plain_dot: String,
    plain_mermaid: String,
)
    requires
        call_ensures(graph::render_graph, (nodes, relations, rankdir, GraphFormat::Dot), dot),
        call_ensures(
            graph::render_graph,
            (nodes, relations, rankdir, GraphFormat::Mermaid),
            mermaid,
        ),
        call_ensures(
            graph::render_graph,
            (nodes, relations, rankdir, GraphFormat::MermaidMd),
            markdown,
        ),
        call_ensures(graph::render_dot_graph, (nodes, relations, rankdir), plain_dot),
        call_ensures(
            graph::render_mermaid_graph,
            (nodes, relations, rankdir, false),
            plain_mermaid,
        ),
    ensures
        dot@ == plain_dot@,
        mermaid@ == plain_mermaid@,
        markdown@ == "```mermaid\n"@ + mermaid@ + "```\n"@,
        text::has_prefix(dot@, "digraph schema_fk {\n"@),
        text::has_prefix(mermaid@, "flowchart "@),
{
    graph_laws::law_formats(nodes@, relations@, rankdir@);
}

/// In a Mermaid graph every relation between two nodes has a line that leads from the node of the
/// schema that it starts at to that of the schema that it ends at.
pub proof fn law_mermaid_graphs_lead_from_start_to_end(
    nodes: &Vec<DotNode>,
    relations: &Vec<DotRelation>,
    rankdir: &str,
    fence: bool,
    t: String,
    i: int,
    from: nat,
    to: nat,
)
    requires
        call_ensures(graph::render_mermaid_graph, (nodes, relations, rankdir, fence), t),
        0 <= i < relations@.len(),
        from < nodes@.len(),
        to < nodes@.len(),
        nodes@[from as int].schema_path@ == relations@[i].from_schema_path@,
        nodes@[to as int].schema_path@ == relations@[i].to_schema_path@,
        forall|j: int|
            from < j < nodes@.len() ==> (#[trigger] nodes@[j]).schema_path@
                != relations@[i].from_schema_path@,
        forall|j: int|
            to < j < nodes@.len() ==> (#[trigger] nodes@[j]).schema_path@
                != relations@[i].to_schema_path@,
    ensures
        ({
            let r = relations@[i];
            let label = graph::mermaid_escaped(text::joined(graph::edge_parts(r), "<br/>"@));
            holds_text(
                t@,
                "  n"@ + text::decimal(from) + (if r.fk_candidate {
                    " -->|\""@ + label + "\"| n"@
                } else {
                    " -. \""@ + label + "\" .-> n"@
                }) + text::decimal(to) + "\n"@,
            )
        }),
{
    let r = relations@[i];
    let all = relations@;
    let before = graph::mermaid_graph(nodes@, all.take(i), rankdir@, false);
    let after = graph::mermaid_graph(nodes@, all.take(i + 1), rankdir@, false);
    let label = graph::mermaid_escaped(text::joined(graph::edge_parts(r), "<br/>"@));
    let line = "  n"@ + text::decimal(from) + (if r.fk_candidate {
        " -->|\""@ + label + "\"| n"@
    } else {
        " -. \""@ + label + "\" .-> n"@
    }) + text::decimal(to) + "\n"@;
    assert(after == before + line) by {
        lemma_mermaid_line(nodes@, all, rankdir@, i, from, to);
    }
    let rest = lemma_mermaid_start(nodes@, all, rankdir@, i + 1);
    let plain = graph::mermaid_graph(nodes@, all, rankdir@, false);
    graph_laws::law_formats(nodes@, all, rankdir@);
    lemma_around("```mermaid\n"@, before, line, rest, "```\n"@);
}

proof fn lemma_around(
    a: Seq<char>,
    before: Seq<char>,
    line: Seq<char>,
    rest: Seq<char>,
    b: Seq<char>,
)
    ensures
        holds_text(before + line + rest, line),
        holds_text(a + (before + line + rest) + b, line),
{
    let c = a + before;
    let d = rest + b;
    assert(a + (before + line + rest) + b =~= c + line + d);
}

proof fn lemma_mermaid_line(
    nodes: Seq<DotNode>,
    all: Seq<DotRelation>,
    d: Seq<char>,
    i: int,
    from: nat,
    to: nat,
)
    requires
        0 <= i < all.len(),
        from < nodes.len(),
        to < nodes.len(),
        nodes[from as int].schema_path@ == all[i].from_schema_path@,
        nodes[to as int].schema_path@ == all[i].to_schema_path@,
        forall|j: int|
            from < j < nodes.len() ==> (#[trigger] nodes[j]).schema_path@
                != all[i].from_schema_path@,
        forall|j: int|
            to < j < nodes.len() ==> (#[trigger] nodes[j]).schema_path@ != all[i].to_schema_path@,
    ensures
        ({
            let r = all[i];
            let label = graph::mermaid_escaped(text::joined(graph::edge_parts(r), "<br/>"@));
            graph::mermaid_graph(nodes, all.take(i + 1), d, false) == graph::mermaid_graph(
                nodes,
                all.take(i),
                d,
                false,
            ) + ("  n"@ + text::decimal(from) + (if r.fk_candidate {
                " -->|\""@ + label + "\"| n"@
            } else {
                " -. \""@ + label + "\" .-> n"@
            }) + text::decimal(to) + "\n"@)
        }),
{
    let r = all[i];
    let label = graph::mermaid_escaped(text::joined(graph::edge_parts(r), "<br/>"@));
    let middle = if r.fk_candidate {
        " -->|\""@ + label + "\"| n"@
    } else {
        " -. \""@ + label + "\" .-> n"@
    };
    let before = graph::mermaid_graph(nodes, all.take(i), d, false);
    graph_laws::law_nodes_are_numbered_by_place(nodes, r.from_schema_path@);
    graph_laws::law_nodes_are_numbered_by_place(nodes, r.to_schema_path@);
    assert(graph::node_index(nodes, r.from_schema_path@) == Some(from));
    assert(graph::node_index(nodes, r.to_schema_path@) == Some(to));
    graph_laws::law_mermaid_edges(nodes, all.take(i), d, r);
    assert(all.take(i).push(r) =~= all.take(i + 1));
    lemma_group(before, "  n"@, text::decimal(from), middle, text::decimal(to), "\n"@);
}

proof fn lemma_group(
    a: Seq<char>,
    b: Seq<char>,
    c: Seq<char>,
    d: Seq<char>,
    e: Seq<char>,
    f: Seq<char>,
)
    ensures
        a + b + c + d + e + f == a + (b + c + d + e + f),
{
    assert(a + b + c + d + e + f =~= a + (b + c + d + e + f));
}

proof fn lemma_mermaid_start(
    nodes: Seq<DotNode>,
    all: Seq<DotRelation>,
    d: Seq<char>,
    n: int,
) -> (rest: Seq<char>)
    requires
        0 <= n <= all.len(),
    ensures
        graph::mermaid_graph(nodes, all, d, false) == graph::mermaid_graph(
            nodes,
            all.take(n),
            d,
            false,
        ) + rest,
    decreases all.len() - n,
{
    let start = graph::mermaid_graph(nodes, all.take(n), d, false);
    if n == all.len() {
        assert(all.take(n) =~= all);
        assert(start + Seq::empty() =~= start);
        Seq::empty()
    } else {
        let next = graph::mermaid_graph(nodes, all.take(n + 1), d, false);
        assert(all.take(n + 1).drop_last() =~= all.take(n));
        let line = graph::mermaid_edge(nodes, all[n]);
        assert(next =~= start + line);
        let rest = lemma_mermaid_start(nodes, all, d, n + 1);
        assert(graph::mermaid_graph(nodes, all, d, false) =~= start + (line + rest));
        line + rest
    }
}

/// What a graph shows of an index: relations, and the schemas at their ends.
pub proof fn law_graph_data(
    t: &IndexTables,
    relations: &Vec<DotRelation>,
    all: bool,
    r: (Vec<DotNode>, Vec<DotRelation>),
    x: DotRelation,
    p: Seq<char>,
)
    requires
        call_ensures(graph::load_graph_data, (t, relations, all), r),
        t.wf(),
    ensures
        r.1@.contains(x) <==> relations@.contains(x) && (all || x.fk_candidate),
        all ==> r.1@.len() == relations@.len(),
        (exists|i: int| 0 <= i < r.0@.len() && (#[trigger] r.0@[i]).schema_path@ == p)
            <==> t.definitions.map().contains_key(p) && graph_laws::at_an_end(r.1@, p),
        forall|i: int|
            0 <= i < r.0@.len() ==> (#[trigger] r.0@[i]).object_count == report_laws::objects_in(
                *t,
                r.0@[i].schema_path@,
            ) && r.0@[i].schema_kind@ == t.definitions.map()[r.0@[i].schema_path@]@,
{
    graph_laws::law_graphs_show_relations(relations@, all, x);
    graph_laws::law_graphs_show_schemas(*t, r.1@, r.0@);
    if all {
        lemma_filter_all(relations@);
    }
}

proof fn lemma_filter_all(relations: Seq<DotRelation>)
    ensures
        relations.filter(graph_laws::is_shown(true)) == relations,
    decreases relations.len(),
{
    reveal(Seq::filter);
    if relations.len() > 0 {
        lemma_filter_all(relations.drop_last());
        assert(relations =~= relations.drop_last().push(relations.last()));
    }
}

/// A report in a file has a line for every row: schemas, object paths, item positions, fields.
pub proof fn law_full_reports_have_every_row(
    report: &ReportData,
    summary: &ReportSummary,
    t: String,
    i: int,
)
    requires
        call_ensures(report::render_report, (report, summary, ReportDetail::FullFile), t),
    ensures
        0 <= i < report.schemas@.len() ==> {
            let row = report.schemas@[i];
            report_laws::has_line(
                t@,
                row.schema_path@ + "\t"@ + row.schema_kind@ + "\t"@ + text::signed_decimal(
                    row.object_count as int,
                ),
            )
        },
        0 <= i < report.object_paths@.len() ==> {
            let row = report.object_paths@[i];
            report_laws::has_line(t@, row.schema_path@ + "\t"@ + row.object_path@)
        },
        0 <= i < report.array_index_refs@.len() ==> {
            let row = report.array_index_refs@[i];
            report_laws::has_line(
                t@,
                row.schema_path@ + "\t"@ + row.array_path@ + "\t"@ + row.array_index_path@,
            )
        },
        0 <= i < report.fields@.len() ==> {
            let row = report.fields@[i];
            report_laws::has_line(
                t@,
                row.schema_path@ + "\t"@ + row.field_name@ + "\t"@ + row.field_type@ + "\t"@
                    + text::signed_decimal(row.field_count as int),
            )
        },
{
    let counts = report::numbers_of(*report);
    let body = report::report_body(*report, ReportDetail::FullFile);
    let end = report::summary_text(counts, *summary, None);
    assert(t@ == body + end);
    report_laws::law_full_report_has_every_row(*report, i);
    assert(Seq::<char>::empty() + body + end =~= body + end);
    if 0 <= i < report.schemas@.len() {
        let row = report.schemas@[i];
        report_laws::lemma_line_within(
            Seq::empty(),
            body,
            end,
            row.schema_path@ + "\t"@ + row.schema_kind@ + "\t"@ + text::signed_decimal(
                row.object_count as int,
            ),
        );
    }
    if 0 <= i < report.object_paths@.len() {
        let row = report.object_paths@[i];
        report_laws::lemma_line_within(
            Seq::empty(),
            body,
            end,
            row.schema_path@ + "\t"@ + row.object_path@,
        );
    }
    if 0 <= i < report.array_index_refs@.len() {
        let row = report.array_index_refs@[i];
        report_laws::lemma_line_within(
            Seq::empty(),
            body,
            end,
            row.schema_path@ + "\t"@ + row.array_path@ + "\t"@ + row.array_index_path@,
        );
    }
    if 0 <= i < report.fields@.len() {
        let row = report.fields@[i];
        report_laws::lemma_line_within(
            Seq::empty(),
            body,
            end,
            row.schema_path@ + "\t"@ + row.field_name@ + "\t"@ + row.field_type@ + "\t"@
                + text::signed_decimal(row.field_count as int),
        );
    }
}

/// A report ends with its summary, which gives the numbers of its rows.
pub proof fn law_reports_end_with_their_numbers(
    report: &ReportData,
    summary: &ReportSummary,
    detail: ReportDetail,
    t: String,
    body: String,
    end: String,
)
    requires
        call_ensures(report::render_report, (report, summary, detail), t),
        call_ensures(report::render_report_body, (report, detail), body),
        call_ensures(report::render_summary, (report, summary, None), end),
    ensures
        t@ == body@ + end@,
        ({
            let aliases = report.object_paths@.filter(
                |row: SchemaObjectPath| row.schema_path@ != row.object_path@,
            ).len();
            text::has_prefix(
                end@,
                "[summary]\n"@ + (report_laws::named_line(
                    "schema_count"@,
                    text::decimal(report.schemas@.len()),
                ) + report_laws::named_line("field_count"@, text::decimal(report.fields@.len()))
                    + report_laws::named_line(
                    "object_path_mapping_count"@,
                    text::decimal(report.object_paths@.len()),
                ) + report_laws::named_line("schema_alias_count"@, text::decimal(aliases))
                    + report_laws::named_line(
                    "array_index_ref_count"@,
                    text::decimal(report.array_index_refs@.len()),
                )),
            )
        }),
{
    let counts = report::numbers_of(*report);
    report_laws::law_report_counts(*report, counts);
    report_laws::law_summary_numbers(counts);
    report_laws::law_summary(counts, *summary, Seq::empty());
    let numbers = "[summary]\n"@ + report::rows_text(report::summary_rows(counts));
    assert(end@.take(numbers.len() as int) =~= numbers);
}

/// The rows of a report on an index are those of its tables.
pub proof fn law_reports_read_the_tables(t: &IndexTables, r: ReportData, p: Seq<char>, o: Seq<char>)
    requires
        call_ensures(report::read_report_data, (t,), r),
        t.wf(),
    ensures
        (exists|i: int| 0 <= i < r.schemas@.len() && (#[trigger] r.schemas@[i]).schema_path@ == p)
            <==> report_laws::is_used(*t, p),
        (exists|i: int|
            0 <= i < r.object_paths@.len() && (#[trigger] r.object_paths@[i]).object_path@ == o
                && r.object_paths@[i].schema_path@ == p) <==> t.schema_paths.map().contains_key(o)
            && t.schema_paths.map()[o]@ == p && t.definitions.map().contains_key(p),
{
    report_laws::law_report_lists_the_schemas(*t, r);
    report_laws::law_report_lists_the_object_paths(*t, r);
}

/// Every object of the input is met when schemas are built.
pub proof fn law_building_meets_every_object(
    outdir: &str,
    entries: &Vec<Entry>,
    r: Result<SchemaBuild, BuildError>,
    e: int,
    steps: Seq<walk_laws::Step>,
    found: Seq<(Seq<char>, Json)>,
) -> (k: int)
    requires
        call_ensures(records::build_schema_output, (outdir, entries), r),
        r is Ok,
        0 <= e < entries@.len(),
        walk_laws::reached(Json::Object(json::fields_model(entries@[e].value@)), steps) == Some(
            Json::Object(found),
        ),
    ensures
        0 <= k < r->Ok_0.occurrences@.len(),
        json::fields_model(r->Ok_0.occurrences@[k].value@) == found,
        text::models(r->Ok_0.occurrences@[k].segments@) == text::models(entries@[e].path@)
            + walk_laws::fields_passed(steps),
{
    let roots = walk::entries_model(entries@);
    let all = walk::walk_all(roots, walk::by_keys());
    let root = roots[e];
    assert(root == walk::entry_model(entries@[e]));
    walk_laws::law_every_object_is_met(
        root.at,
        root.fields,
        root.role,
        root.indexes,
        steps,
        found,
    );
    let o = Occ {
        at: root.at + walk_laws::fields_passed(steps),
        fields: found,
        role: walk_laws::role_after(steps, root.role),
        indexes: root.indexes + walk_laws::positions_passed(steps),
    };
    lemma_in_walk(roots, e, o);
    let models = walk::occurrences_model(r->Ok_0.occurrences@);
    let k = choose|k: int| 0 <= k < all.len() && all[k] == o;
    assert(models[k] == walk::occurrence_model(r->Ok_0.occurrences@[k]));
    k
}

proof fn lemma_in_walk(
    roots: Seq<Occ<Seq<Seq<char>>>>,
    e: int,
    o: Occ<Seq<Seq<char>>>,
)
    requires
        0 <= e < roots.len(),
        walk::walk_object(
            roots[e].at,
            walk::by_keys(),
            roots[e].fields,
            roots[e].role,
            roots[e].indexes,
        ).contains(o),
    ensures
        walk::walk_all(roots, walk::by_keys()).contains(o),
    decreases roots.len(),
{
    let d = roots.drop_last();
    let n = roots.len() - 1;
    crate::same_records::lemma_concat_contains(
        walk::walk_all(d, walk::by_keys()),
        walk::walk_object(
            roots[n].at,
            walk::by_keys(),
            roots[n].fields,
            roots[n].role,
            roots[n].indexes,
        ),
        o,
    );
    if e < n {
        assert(d[e] == roots[e]);
        lemma_in_walk(d, e, o);
    }
}

/// The index of records counts for each schema the objects that it describes.
pub proof fn law_indexes_count_objects(
    outdir: &str,
    records: Vec<Record>,
    occurrences: &Vec<Occurrence>,
    r: Result<Catalog, StatisticsError>,
    p: Seq<char>,
)
    requires
        call_ensures(catalog::index_records, (outdir, records, occurrences), r),
    ensures
        ({
            let l = catalog::lookups_of(records::records_model(records@));
            let occs = walk::occurrences_model(occurrences@);
            let own = index_laws::objects_of(outdir@, l, occs, p);
            &&& r is Ok <==> forall|i: int|
                0 <= i < occs.len() ==> index_laws::is_countable(outdir@, l, #[trigger] occs[i])
            &&& r is Ok ==> {
                let counts = r->Ok_0.statistics.object_counts;
                &&& counts.map().contains_key(p) <==> own.len() > 0 && index_laws::counts_objects(
                    l,
                    p,
                )
                &&& counts.map().contains_key(p) ==> counts.map()[p] == own.len()
                &&& r->Ok_0.records == records
            }
        }),
{
    let recs = records::records_model(records@);
    let l = catalog::lookups_of(recs);
    let occs = walk::occurrences_model(occurrences@);
    index_laws::law_object_counts(outdir@, recs, occs, p);
    index_laws::law_counting_fails(outdir@, l, occs, 0);
    if r is Ok {
        let counts = r->Ok_0.statistics.object_counts;
        let stored = r->Ok_0.stored();
        assert(stored.objects == catalog::stored_of(outdir@, recs, occs).objects);
        assert(stored.objects.contains_key(p) <==> counts.map().contains_key(p));
    }
}

/// Keys become segments of paths, and paths of schemas end with `.json`.
pub proof fn law_paths(
    outdir: &str,
    segments: &Vec<String>,
    base: &str,
    key: &str,
    r: String,
    s: String,
    f: String,
    c: String,
)
    requires
        call_ensures(path::reference_path, (outdir, segments), r),
        call_ensures(path::path_segment, (key,), s),
        call_ensures(path::json_path, (base,), f),
        call_ensures(path::child_path_base, (base, key), c),
        segments@.len() == 1,
        segments@[0]@ == key@,
    ensures
        r@ == outdir@ + seq!['/'] + s@,
        c@ == base@ + seq!['/'] + s@,
        f@ == base@ + seq!['.', 'j', 's', 'o', 'n'],
        !s@.contains('/'),
{
    path_laws::law_paths_grow_by_segments(outdir@, Seq::empty(), key@, base@);
    path::lemma_segment_has_no_slash(key@);
    assert(text::models(segments@) =~= seq![key@]);
}

/// Positions are written in decimal, as the name of a file and as a JSON array.
pub proof fn law_positions(index: &Vec<usize>, stem: String, array: String, a: nat, b: nat)
    requires
        call_ensures(path::index_path_file_stem, (index,), stem),
        call_ensures(index_path::index_path_json, (index,), array),
        text::models(index@) == seq![a, b],
    ensures
        stem@ == text::decimal(a) + seq!['_'] + text::decimal(b),
        array@ == seq!['['] + (text::decimal(a) + seq![','] + text::decimal(b)) + seq![']'],
{
    path_laws::law_positions_as_texts(seq![a], b);
    path_laws::law_positions_as_texts(seq![a, b], 0);
    path_laws::law_positions_as_texts(Seq::empty(), a);
    assert(seq![a].push(b) =~= seq![a, b]);
}

/// Only the directories that must not be remade are refused.
pub proof fn law_output_directories(d: &str, r: Result<(), String>)
    requires
        call_ensures(outdir::reject_unsafe_outdir, (d,), r),
    ensures
        r is Err <==> d@ == Seq::<char>::empty() || d@ == seq!['/'] || d@ == seq!['.'] || d@
            == seq!['.', '.'],
        r is Err ==> r->Err_0@ == "refusing unsafe output directory: "@ + d@,
{
    path_laws::law_refused_directories(d@);
}

/// Links stand at the other paths of a record.
pub proof fn law_link_paths(record: &Record, r: Vec<String>)
    requires
        call_ensures(outdir::link_paths, (record,), r),
    ensures
        text::models(r@) == text::models(record.object_paths@).filter(
            path_laws::is_other(record.schema_path@),
        ),
{
    path_laws::law_links(record.schema_path@, text::models(record.object_paths@));
}

/// A value has the name of its kind, and a schema its kind.
pub proof fn law_kinds(v: &JsonValue, name: &'static str, s: &Vec<(String, String)>, k: &'static str)
    requires
        call_ensures(kinds::value_type, (v,), name),
        call_ensures(index::schema_kind, (s,), k),
    ensures
        v is Null ==> name@ == "null"@,
        v is Bool ==> name@ == "boolean"@,
        v is Number ==> name@ == "number"@,
        v is Text ==> name@ == "string"@,
        v is Array ==> name@ == "array"@,
        v is Object ==> name@ == "object"@,
        k@ == (if s@.len() == 1 && s@[0].0@ == "$refs_mut"@ {
            "heterogeneous"@
        } else {
            "object"@
        }),
{
    assert(s@.len() == 1 ==> json::schema_model(s@)[0].0 == s@[0].0@);
}

/// What a refused input is answered.
pub proof fn law_input_messages(e: &InputError, m: String, c: Option<String>)
    requires
        call_ensures(InputError::message, (e,), m),
        call_ensures(InputError::cause, (e,), c),
    ensures
        e is Empty ==> m@ == "input is empty"@ && c is None,
        e matches InputError::InvalidPath(p) ==> m@ == "invalid input path: "@ + p@ && c is None,
        e matches InputError::InvalidJson(x) ==> m@ == "invalid JSON input"@ && c is Some && c->0@
            == x@,
        e matches InputError::InvalidJsonl(n, x) ==> m@ == "invalid JSONL input at line "@
            + text::decimal(n as nat) && c is Some && c->0@ == x@,
        e matches InputError::NulPadding(n) ==> m@ == "invalid JSONL input at line "@
            + text::decimal(n as nat) + ": record contains only NUL padding"@ && c is None,
        e matches InputError::InvalidJsonAndJsonl(x, l) ==> m@
            == "invalid JSON input; JSONL fallback also failed: "@ + l@ && c is Some && c->0@ == x@,
        e is JsonlValueNotObject ==> m@ == "JSONL values must be objects"@ && c is None,
        e is ArrayValueNotObject ==> m@ == "top-level array values must be objects"@ && c is None,
        e is ValueNotObject ==> m@ == "top-level JSON values must be objects"@ && c is None,
        e is NotObjectOrArray ==> m@ == "top-level JSON value must be an object or array"@
            && c is None,
{
}

/// What is answered where objects cannot be counted, and where nothing can be built or recorded.
pub proof fn law_other_messages(
    e: &StatisticsError,
    m: String,
    b: BuildError,
    n: &'static str,
    s: StreamError,
    o: &'static str,
)
    requires
        call_ensures(StatisticsError::message, (e,), m),
        call_ensures(BuildError::message, (b,), n),
        call_ensures(StreamError::message, (s,), o),
    ensures
        e matches StatisticsError::MissingSchemaPath(p) ==> m@
            == "missing schema_paths entry for "@ + p@,
        e matches StatisticsError::MissingIndexRef(p, i) ==> m@
            == "missing array_index_refs entry for "@ + p@ + " at "@ + index_path::json_text(
            text::models(i@),
        ),
        e matches StatisticsError::MissingSchema(p) ==> m@ == "missing in-memory schema for "@ + p@,
        e matches StatisticsError::MissingFieldType(p, f) ==> m@ == "missing field type for "@ + p@
            + "."@ + f@ + " in canonical schema"@,
        b is ArrayItemMissingIndexPath ==> n@ == "array item missing index path"@,
        b is RootCollectionItemMissingIndexPath ==> n@ == "root collection item missing index path"@,
        s is TooManyFacts ==> o@ == "too many facts to count"@,
        s is TooManyNames ==> o@ == "too many paths and field names to number"@,
{
}

/// A schema file holds the JSON text of the schema, on one line or indented, and a line end.
pub proof fn law_schema_files(schema: &Vec<(String, String)>, a: String, b: String, c: String)
    requires
        call_ensures(json::schema_file_text, (schema, true), a),
        call_ensures(json::schema_file_text, (schema, false), b),
        call_ensures(json::canonical_json, (schema,), c),
    ensures
        a@ == json::compact_json(json::schema_model(schema@)) + seq!['\n'],
        b@ == json::pretty_json(json::schema_model(schema@)) + seq!['\n'],
        a@ == c@ + seq!['\n'],
{
    reveal_strlit("\n");
    assert("\n"@ =~= seq!['\n']);
}

/// Where a graph goes.
pub proof fn law_graph_files(
    requested: bool,
    name: Option<&str>,
    outdir: &str,
    parent: Option<&str>,
    format: GraphFormat,
    r: Option<GraphOutput>,
)
    requires
        call_ensures(
            graph::resolve_graph_output_path,
            (requested, name, outdir, parent, format),
            r,
        ),
        name is Some ==> name->0@.len() > 0 && name->0@.last() != '/' && name->0@.last() != '.'
            && name->0@ != "__default_graph_path__"@,
    ensures
        !requested ==> r is None,
        requested && name is Some ==> r is Some && r->0 is File && r->0->File_0@ == name->0@,
        requested && name is None ==> r is Some && r->0 is Directory,
        requested && name is None && parent is Some ==> r->0->Directory_0@ == parent->0@,
        requested && name is None && parent is None ==> r->0->Directory_0@ == outdir@,
        requested && name is None && format == GraphFormat::Dot ==> r->0->Directory_1@
            == "schema.dot"@,
        requested && name is None && format == GraphFormat::Mermaid ==> r->0->Directory_1@
            == "schema.mmd"@,
        requested && name is None && format == GraphFormat::MermaidMd ==> r->0->Directory_1@
            == "schema.md"@,
{
    reveal_strlit("__default_graph_path__");
    if let Some(n) = name {
        graph_laws::law_path_ends_do_not_count(n@);
    }
}

/// A link holds the relative path from its directory to its target, where there is one.
pub proof fn law_link_contents(target: &str, dir: &str, r: String)
    requires
        call_ensures(outdir::symlink_target, (target, dir), r),
    ensures
        outdir::relative_path(target@, dir@) matches Some(p) ==> r@ == p,
        outdir::relative_path(target@, dir@) is None ==> r@ == target@,
{
}

/// The numbers of a summary that is made from the tables are those of their rows.
pub proof fn law_tables_are_counted(t: &IndexTables, report: &ReportData, r: SummaryCounts)
    requires
        call_ensures(report::count_tables, (t, report), r),
        report::reports(*t, *report),
    ensures
        r.schemas == report.schemas@.len(),
        r.fields == t.field_counts.entries@.len(),
        r.object_paths == t.schema_paths.entries@.len(),
        r.array_index_refs == t.array_index_refs.entries@.len(),
        r.aliases == t.schema_paths.entries@.filter(
            |row: (String, String)| row.0@ != row.1@,
        ).len(),
{
    report_laws::law_table_counts(*t, *report, r);
}

/// The index that is made from the tables of a stream stores what the text of the stream gives
/// when it is read at once.
pub proof fn law_streams_are_indexed_as_their_text(
    t: &Tables<String, String>,
    c: Catalog,
    outdir: Seq<char>,
    text: Seq<char>,
    file_mode: bool,
    base: Seq<char>,
)
    requires
        call_ensures(catalog::finalize_streamed_jsonl, (t,), c),
        same_text::well_read(text, file_mode, base),
        same_text::stored_of_text(outdir, text, file_mode, base) is Some,
        t.holds(same_text::text_log(outdir, text, file_mode, base)),
        tables::facts_fit(same_text::text_log(outdir, text, file_mode, base)),
    ensures
        same_text::agree(
            c.stored(),
            same_text::stored_of_text(outdir, text, file_mode, base)->0,
            records::built(outdir, same_text::text_walk(text, file_mode, base)->0),
        ),
{
    same_text::law_text_streams_as_it_reads(*t, outdir, text, file_mode, base);
}

/// The index of records stores what it is asked for: the last schema of each schema path, the last
/// schema path of each object path, and the counts of fields.
pub proof fn law_indexes_store_records(
    outdir: &str,
    records: Vec<Record>,
    occurrences: &Vec<Occurrence>,
    r: Result<Catalog, StatisticsError>,
    i: int,
    p: Seq<char>,
)
    requires
        call_ensures(catalog::index_records, (outdir, records, occurrences), r),
        r is Ok,
        0 <= i < records@.len(),
    ensures
        index_laws::last_of_path(records::records_model(records@), i) ==> r->Ok_0.definitions.map().contains_key(
            records@[i].schema_path@,
        ) && json::schema_model(r->Ok_0.definitions.map()[records@[i].schema_path@]@)
            == json::schema_model(records@[i].schema@),
        text::models(records@[i].object_paths@).contains(p) && (forall|j: int|
            i < j < records@.len() ==> !text::models((#[trigger] records@[j]).object_paths@).contains(
                p,
            )) ==> r->Ok_0.schema_paths.map().contains_key(p) && r->Ok_0.schema_paths.map()[p]@
            == records@[i].schema_path@,
{
    let recs = records::records_model(records@);
    let occs = walk::occurrences_model(occurrences@);
    let stored = catalog::stored_of(outdir@, recs, occs);
    let c = r->Ok_0;
    assert(recs[i] == records::record_model(records@[i]));
    index_laws::law_stored_schemas(outdir@, recs, occs, i, recs[i].schema_path);
    index_laws::law_stored_object_paths(outdir@, recs, occs, i, p);
    assert(c.stored().definitions == stored.definitions);
    assert(c.stored().paths == stored.paths);
    assert(stored.definitions.contains_key(recs[i].schema_path));
    assert(c.stored().definitions.contains_key(recs[i].schema_path)
        == c.definitions.map().contains_key(recs[i].schema_path));
    if recs[i].object_paths.contains(p) && (forall|j: int|
        i < j < records@.len() ==> !text::models((#[trigger] records@[j]).object_paths@).contains(
            p,
        )) {
        assert forall|j: int| i < j < recs.len() implies !(#[trigger] recs[j]).object_paths.contains(
            p,
        ) by {
            assert(recs[j] == records::record_model(records@[j]));
        }
        assert(stored.paths.contains_key(p));
        assert(c.stored().paths.contains_key(p) == c.schema_paths.map().contains_key(p));
    }
}

/// The texts of a position, however it is held: the sort key has twenty digits for each place, and
/// the other is a JSON array.
pub proof fn law_positions_are_written(
    index: &Vec<usize>,
    c: &CompactIndexPath,
    key: &mut String,
    array: &mut String,
    whole: String,
    a: nat,
    b: nat,
)
    requires
        call_ensures(CompactIndexPath::from_slice, (index,), *c),
        call_ensures(CompactIndexPath::write_sort_key, (c, key), ()),
        call_ensures(CompactIndexPath::write_json_string, (c, array), ()),
        call_ensures(index_path::index_path_json, (index,), whole),
        text::models(index@) == seq![a, b],
    ensures
        final(key)@ == text::padded_decimal(a, 20) + seq!['/'] + text::padded_decimal(b, 20),
        final(array)@ == whole@,
{
    path_laws::law_positions_as_texts(seq![a], b);
    path_laws::law_positions_as_texts(Seq::empty(), a);
    assert(seq![a].push(b) =~= seq![a, b]);
}

/// How a stream takes a line: it counts every line and every value, goes on where the line holds
/// objects only, stops where it breaks off, and refuses what is refused when it is read.
pub proof fn law_streams_take_lines(
    stream: &mut JsonlStream,
    line: &str,
    r: Result<NextLine, JsonlError>,
)
    requires
        call_ensures(JsonlStream::feed, (stream, line), r),
        old(stream).ready(),
        old(stream).line_count() < u64::MAX,
    ensures
        ({
            let read = jsonl::reading(line@, old(stream).line_count() + 1);
            let found = jsonl::reading_values(read);
            &&& r is Ok ==> {
                &&& final(stream).ready()
                &&& final(stream).root() == old(stream).root()
                &&& final(stream).line_count() == old(stream).line_count() + 1
                &&& final(stream).value_count() == old(stream).value_count() + found.len()
                &&& final(stream).log() == tables::joined_logs(
                    old(stream).log(),
                    jsonl::values_log(old(stream).root(), found, old(stream).value_count()),
                )
                &&& !(read is Refused)
                &&& r->Ok_0 is Read <==> read is Values
                &&& r->Ok_0 is Stop <==> read is CutOff
            }
            &&& r matches Err(JsonlError::Input(e)) ==> read is Refused && input::error_model(e)
                == read->Refused_1
            &&& !(r matches Err(JsonlError::TooManyLines))
        }),
{
}

/// A stream that took no value is refused as empty; else what was recorded comes out.
pub proof fn law_streams_end(
    stream: JsonlStream,
    r: Result<Tables<String, String>, InputError>,
    outdir: &str,
    file_mode: bool,
    base: &str,
    fresh: JsonlStream,
)
    requires
        call_ensures(JsonlStream::finish, (stream,), r),
        call_ensures(JsonlStream::new, (outdir, file_mode, base), fresh),
        stream.ready(),
    ensures
        r is Ok <==> stream.value_count() > 0,
        r is Err ==> r->Err_0 is Empty,
        r is Ok ==> r->Ok_0.holds(stream.log()),
        fresh.ready(),
        fresh.line_count() == 0,
        fresh.value_count() == 0,
        fresh.root() == outdir@ + seq!['/'] + path::segment(
            input_laws::name_of_members(file_mode, base@),
        ),
{
    let name = input_laws::name_of_members(file_mode, base@);
    input_laws::lemma_names(file_mode, base@);
    path_laws::law_paths_grow_by_segments(outdir@, Seq::empty(), name, Seq::empty());
}

/// Objects are recorded alike by number and by name, and what was recorded comes out, also where it
/// is added to what is there.
pub proof fn law_recorders_agree(
    acc: &mut StreamAcc,
    out: &mut StreamTables,
    base: &str,
    object: &Vec<(String, JsonValue)>,
    role: Role,
    indexes: &Vec<usize>,
    r: Result<(), StreamError>,
    s: Result<(), StreamError>,
)
    requires
        call_ensures(
            stream::record_streamed_object_occurrence_to_acc,
            (acc, base, object, role, indexes),
            r,
        ),
        call_ensures(
            stream::record_streamed_object_occurrence,
            (out, base, object, role, indexes),
            s,
        ),
        old(acc).ready(),
        old(out).ready(),
        old(acc).log() == old(out).log(),
    ensures
        r is Ok && s is Ok ==> final(acc).log() == final(out).log(),
        s is Err ==> !(r is Ok),
        r is Ok ==> final(acc).log() == tables::joined_logs(
            old(acc).log(),
            recorder::log_of(
                walk::walk_object(
                    base@,
                    recorder::by_paths(),
                    json::fields_model(object@),
                    role,
                    text::models(indexes@),
                ),
            ),
        ),
{
}

/// The tables of what was recorded hold it, and tables that it is added to hold both.
pub proof fn law_tables_hold_what_was_recorded(
    acc: StreamAcc,
    out: StreamTables,
    given: Tables<String, String>,
    a: Tables<String, String>,
    b: Tables<String, String>,
    c: Option<Tables<String, String>>,
    log: Log<Seq<char>, Seq<char>>,
)
    requires
        call_ensures(StreamAcc::flush, (acc,), a),
        call_ensures(StreamTables::into_tables, (out,), b),
        call_ensures(StreamAcc::flush_into, (acc, given), c),
        acc.ready(),
        out.ready(),
        given.wf(),
        given.holds(log),
    ensures
        a.holds(acc.log()),
        b.holds(out.log()),
        c is Some ==> c->0.holds(tables::joined_logs(log, acc.log())),
        c is None ==> !tables::facts_fit(tables::joined_logs(log, acc.log())),
{
}

/// The names of roles and of seen kinds, and the label of scalars.
pub proof fn law_names(
    role: Role,
    name: &'static str,
    counts: ValueTypeCounts,
    names: Vec<&'static str>,
    values: &Vec<&JsonValue>,
    total: usize,
    l: String,
    i: int,
)
    requires
        call_ensures(tables::role_storage_name, (role,), name),
        call_ensures(ValueTypeCounts::type_names, (counts,), names),
        call_ensures(label::primitive_label, (values, total), l),
        values@.len() > 0,
        forall|k: int|
            0 <= k < values@.len() ==> !(*(#[trigger] values@[k]) is Array) && !(
            *values@[k] is Object) && kinds::kind_name(json::model(*values@[k]))
                == kinds::kind_name(json::model(*values@[0])),
    ensures
        role == Role::Object ==> name@ == "object"@,
        role == Role::ArrayItem ==> name@ == "array_item"@,
        role == Role::RootCollection ==> name@ == "root_collection"@,
        (exists|k: int| 0 <= k < names@.len() && (#[trigger] names@[k])@ == "boolean"@)
            <==> counts.boolean > 0,
        (exists|k: int| 0 <= k < names@.len() && (#[trigger] names@[k])@ == "null"@)
            <==> counts.null > 0,
        (exists|k: int| 0 <= k < names@.len() && (#[trigger] names@[k])@ == "number"@)
            <==> counts.number > 0,
        (exists|k: int| 0 <= k < names@.len() && (#[trigger] names@[k])@ == "string"@)
            <==> counts.string > 0,
        (exists|k: int| 0 <= k < names@.len() && (#[trigger] names@[k])@ == "array"@)
            <==> counts.array > 0,
        (exists|k: int| 0 <= k < names@.len() && (#[trigger] names@[k])@ == "object"@)
            <==> counts.object > 0,
        ({
            let first = json::model(*values@[0]);
            &&& values@.len() >= total || first is Null ==> l@ == kinds::kind_name(first)
            &&& values@.len() < total && !(first is Null) ==> l@ == kinds::kind_name(first)
                + seq!['?']
        }),
{
    label_laws::lemma_kinds_differ();
    lemma_listed(names@, counts, "boolean"@);
    lemma_listed(names@, counts, "null"@);
    lemma_listed(names@, counts, "number"@);
    lemma_listed(names@, counts, "string"@);
    lemma_listed(names@, counts, "array"@);
    lemma_listed(names@, counts, "object"@);
    let models = kinds::refs_model(values@);
    assert forall|k: int| 0 <= k < models.len() implies !((#[trigger] models[k]) is Array) && !(
    models[k] is Object) && kinds::kind_name(models[k]) == kinds::kind_name(models[0]) by {
        assert(models[k] == json::model(*values@[k]));
        assert(!(*values@[k] is Array) && !(*values@[k] is Object));
    }
    let parts = label_laws::law_scalar_fields(Seq::empty(), models, total as int);
    let only = kinds::kind_name(models[0]);
    assert forall|k: int| 0 <= k < parts.len() implies #[trigger] parts[k] == only by {
        assert(parts.contains(parts[k]));
    }
    if parts.len() > 1 {
        order::lemma_before_excludes(parts[0], parts[1]);
    }
    label_laws::law_kinds_are_those_of_the_values(models);
    assert(label::values_label(Seq::empty(), models, total as int) == label::scalar_label(
        kinds::kinds(models),
        models.len() < total,
    ));
}

proof fn lemma_listed(names: Seq<&'static str>, counts: ValueTypeCounts, l: Seq<char>)
    requires
        kinds::strs_model(names) == kinds::kind_names(kinds::tally_kinds(counts.tally())),
    ensures
        (exists|k: int| 0 <= k < names.len() && (#[trigger] names[k])@ == l) <==> kinds::kind_names(
            kinds::tally_kinds(counts.tally()),
        ).contains(l),
        kinds::kind_names(kinds::tally_kinds(counts.tally())).contains(l) <==> (counts.array > 0
            && l == "array"@) || (counts.boolean > 0 && l == "boolean"@) || (counts.null > 0 && l
            == "null"@) || (counts.number > 0 && l == "number"@) || (counts.object > 0 && l
            == "object"@) || (counts.string > 0 && l == "string"@),
{
    let all = kinds::strs_model(names);
    label_laws::law_kinds_are_listed_in_order(kinds::tally_kinds(counts.tally()), l);
    if exists|k: int| 0 <= k < names.len() && (#[trigger] names[k])@ == l {
        let k = choose|k: int| 0 <= k < names.len() && (#[trigger] names[k])@ == l;
        assert(all[k] == l);
    }
    if all.contains(l) {
        let k = choose|k: int| 0 <= k < all.len() && all[k] == l;
        assert(names[k]@ == l);
    }
}

/// Schemas alone are those that are built.
pub proof fn law_schemas_alone(
    outdir: &str,
    entries: &Vec<Entry>,
    r: Result<SchemaBuild, BuildError>,
    s: Result<Vec<Record>, BuildError>,
)
    requires
        call_ensures(records::build_schema_output, (outdir, entries), r),
        call_ensures(records::distinct_schemas, (outdir, entries), s),
    ensures
        r is Ok <==> s is Ok,
        r is Ok ==> records::records_model(s->Ok_0@) == records::records_model(r->Ok_0.records@),
        r is Ok <==> forall|i: int|
            0 <= i < entries@.len() ==> (#[trigger] entries@[i]).collection
                ==> entries@[i].index is Some,
{
    if r is Err {
        let i = choose|i: int| 0 <= i < entries@.len() && records::unplaced(#[trigger] entries@[i]);
        assert(entries@[i].collection && entries@[i].index is None);
    }
    if exists|i: int|
        0 <= i < entries@.len() && (#[trigger] entries@[i]).collection && entries@[i].index is None {
        let i = choose|i: int|
            0 <= i < entries@.len() && (#[trigger] entries@[i]).collection
                && entries@[i].index is None;
        assert(records::unplaced(entries@[i]));
    }
}

/// The index counts for each schema how many of its objects have a field, and has the label that the
/// schema gives it.
pub proof fn law_indexes_count_fields(
    outdir: &str,
    records: Vec<Record>,
    occurrences: &Vec<Occurrence>,
    r: Result<Catalog, StatisticsError>,
    p: Seq<char>,
    name: Seq<char>,
    i: int,
)
    requires
        call_ensures(catalog::index_records, (outdir, records, occurrences), r),
        r is Ok,
        ({
            let occs = walk::occurrences_model(occurrences@);
            forall|i: int|
                0 <= i < occs.len() ==> order::ascending(json::names((#[trigger] occs[i]).fields))
        }),
        index_laws::counts_objects(catalog::lookups_of(records::records_model(records@)), p),
    ensures
        ({
            let l = catalog::lookups_of(records::records_model(records@));
            let occs = walk::occurrences_model(occurrences@);
            let fields = r->Ok_0.statistics.field_counts.map();
            let own = index_laws::objects_of(outdir@, l, occs, p).map_values(
                |o: Occ<Seq<Seq<char>>>| o.fields,
            ).filter(index_laws::has_field(name));
            let schema = l.definitions[p];
            &&& fields.contains_key((p, name)) <==> own.len() > 0
            &&& fields.contains_key((p, name)) ==> fields[(p, name)].1 == own.len()
            &&& fields.contains_key((p, name)) && 0 <= i < schema.len() && schema[i].0 == name
                && order::ascending(json::schema_names(schema)) ==> fields[(p, name)].0@
                == schema[i].1
        }),
{
    let recs = records::records_model(records@);
    let occs = walk::occurrences_model(occurrences@);
    let fields = r->Ok_0.statistics.field_counts;
    index_laws::law_field_counts(outdir@, recs, occs, p, name, i);
    let stored = r->Ok_0.stored();
    assert(stored.fields == catalog::stored_of(outdir@, recs, occs).fields);
    assert(stored.fields.contains_key((p, name)) <==> fields.map().contains_key((p, name)));
}

/// The index has the schema of each item position.
pub proof fn law_indexes_store_positions(
    outdir: &str,
    records: Vec<Record>,
    occurrences: &Vec<Occurrence>,
    r: Result<Catalog, StatisticsError>,
    i: int,
    array: Seq<char>,
    position: Seq<nat>,
)
    requires
        call_ensures(catalog::index_records, (outdir, records, occurrences), r),
        r is Ok,
        0 <= i < records@.len(),
        records@[i].array_parent is Some,
        records@[i].array_parent->0@ == array,
        text::models(records@[i].array_index_paths@).contains(position),
        forall|j: int|
            i < j < records@.len() ==> !index_laws::lists_position(
                #[trigger] records::records_model(records@)[j],
                array,
                position,
            ),
    ensures
        r->Ok_0.array_index_refs.map().contains_key((array, position)),
        r->Ok_0.array_index_refs.map()[(array, position)]@ == records@[i].schema_path@,
{
    let recs = records::records_model(records@);
    let occs = walk::occurrences_model(occurrences@);
    let stored = catalog::stored_of(outdir@, recs, occs);
    let c = r->Ok_0;
    assert(recs[i] == records::record_model(records@[i]));
    assert(index_laws::lists_position(recs[i], array, position));
    index_laws::law_stored_item_positions(outdir@, recs, occs, i, array, position);
    assert(c.stored().refs == stored.refs);
    assert(stored.refs.contains_key((array, position)));
    assert(c.stored().refs.contains_key((array, position)) == c.array_index_refs.map().contains_key(
        (array, position),
    ));
}

/// The relations of an index are those of its records and its counts.
pub proof fn law_indexes_relate_their_records(
    outdir: &str,
    records: Vec<Record>,
    occurrences: &Vec<Occurrence>,
    r: Result<Catalog, StatisticsError>,
    rows: Vec<SchemaRelation>,
)
    requires
        call_ensures(catalog::index_records, (outdir, records, occurrences), r),
        r is Ok,
        call_ensures(relations::write_schema_relations, (&records, &r->Ok_0.statistics), rows),
    ensures
        r->Ok_0.relations@.len() == rows@.len(),
        forall|i: int|
            0 <= i < rows@.len() ==> relations::relation_model(#[trigger] rows@[i])
                == relations::relation_model(r->Ok_0.relations@[i]),
{
    let recs = records::records_model(records@);
    let occs = walk::occurrences_model(occurrences@);
    let c = r->Ok_0;
    let stored = catalog::stored_of(outdir@, recs, occs);
    assert(c.stored() == stored);
    assert(c.stored().objects == statistics::counts_of(c.statistics.object_counts));
    assert(c.stored().fields == statistics::field_counts_of(c.statistics.field_counts));
    let a = relations::relations_model(c.relations@);
    let b = relations::relations_model(rows@);
    assert(a == b);
    assert(a.len() == c.relations@.len() && b.len() == rows@.len());
    assert forall|i: int| 0 <= i < rows@.len() implies relations::relation_model(
        #[trigger] rows@[i],
    ) == relations::relation_model(c.relations@[i]) by {
        assert(b[i] == relations::relation_model(rows@[i]));
        assert(a[i] == relations::relation_model(c.relations@[i]));
    }
}

/// Every object of the input has a schema. An object in a field, or alone, has the schema of all
/// objects there, under a record that lists its path. An item of an array or of a collection has a
/// schema of its own, under a record of that array that lists its position.
pub proof fn law_every_object_has_a_schema(
    outdir: &str,
    entries: &Vec<Entry>,
    r: Result<SchemaBuild, BuildError>,
    k: int,
) -> (i: int)
    requires
        call_ensures(records::build_schema_output, (outdir, entries), r),
        r is Ok,
        0 <= k < r->Ok_0.occurrences@.len(),
    ensures
        0 <= i < r->Ok_0.records@.len(),
        ({
            let occs = walk::occurrences_model(r->Ok_0.occurrences@);
            let o = r->Ok_0.occurrences@[k];
            let rec = r->Ok_0.records@[i];
            let place = text::models(o.segments@);
            let file = path::reference(outdir@, place) + ".json"@;
            let prefix = path::child_prefix(outdir@, place);
            let schema = json::schema_model(rec.schema@);
            &&& o.role == Role::Object ==> text::models(rec.object_paths@).contains(file) && schema
                == label::schema_of(
                prefix,
                record_laws::objects_at(walk::of_role(occs, Role::Object), place),
            )
            &&& o.role != Role::Object ==> rec.array_parent is Some && rec.array_parent->0@ == file
                && text::models(rec.array_index_paths@).contains(text::models(o.array_indexes@))
                && schema == label::schema_of(prefix, seq![json::fields_model(o.value@)])
        }),
{
    let occs = walk::occurrences_model(r->Ok_0.occurrences@);
    let recs = records::records_model(r->Ok_0.records@);
    let o = occs[k];
    let own = walk::of_role(occs, o.role);
    assert(o == walk::occurrence_model(r->Ok_0.occurrences@[k]));
    lemma_of_role(occs, k);
    let m = choose|m: int| 0 <= m < own.len() && own[m] == o;
    let a = records::merged(
        records::object_candidates(outdir@, walk::of_role(occs, Role::Object)),
    );
    let b = records::collection_records(outdir@, walk::of_role(occs, Role::ArrayItem), true);
    let c = records::collection_records(outdir@, walk::of_role(occs, Role::RootCollection), false);
    assert(recs == a + b + c);
    let i = if o.role == Role::Object {
        let n = record_laws::law_objects_of_a_field_share_a_schema(outdir@, own, m);
        record_laws::law_merged_paths_keep_their_schemas(
            records::object_candidates(outdir@, own),
            n,
        )
    } else if o.role == Role::ArrayItem {
        let j = lemma_item_record(outdir@, own, m, true);
        assert((a + b + c)[a.len() + j] == b[j]);
        a.len() + j
    } else {
        let j = lemma_item_record(outdir@, own, m, false);
        assert((a + b + c)[a.len() + b.len() + j] == c[j]);
        a.len() + b.len() + j
    };
    assert(recs.len() == a.len() + b.len() + c.len());
    assert(recs.len() == r->Ok_0.records@.len());
    assert(0 <= i < recs.len());
    assert(recs[i] == records::record_model(r->Ok_0.records@[i]));
    if o.role == Role::Object {
        assert(recs[i] == a[i]);
    }
    i
}

proof fn lemma_of_role(occs: Seq<Occ<Seq<Seq<char>>>>, k: int)
    requires
        0 <= k < occs.len(),
    ensures
        walk::of_role(occs, occs[k].role).contains(occs[k]),
    decreases occs.len(),
{
    let d = occs.drop_last();
    let n = occs.len() - 1;
    let role = occs[k].role;
    let whole = walk::of_role(occs, role);
    let less = walk::of_role(d, role);
    if k < n {
        assert(d[k] == occs[k]);
        lemma_of_role(d, k);
        let m = choose|m: int| 0 <= m < less.len() && less[m] == occs[k];
        assert(whole[m] == occs[k]);
    } else {
        assert(whole[less.len() as int] == occs[k]);
    }
}

proof fn lemma_item_record(
    outdir: Seq<char>,
    occs: Seq<Occ<Seq<Seq<char>>>>,
    m: int,
    container: bool,
) -> (i: int)
    requires
        0 <= m < occs.len(),
    ensures
        0 <= i < records::collection_records(outdir, occs, container).len(),
        ({
            let rec = records::collection_records(outdir, occs, container)[i];
            let o = occs[m];
            &&& rec.array_parent == Some(path::reference(outdir, o.at) + ".json"@)
            &&& rec.index_paths.contains(o.indexes)
            &&& rec.schema == label::schema_of(path::child_prefix(outdir, o.at), seq![o.fields])
        }),
{
    let place = occs[m].at;
    let items = record_laws::items_at(occs, place);
    let none = Seq::<Seq<Seq<char>>>::empty();
    let places = record_laws::law_arrays_are_taken_place_by_place(
        outdir,
        occs,
        none,
        none,
        place,
        container,
    );
    assert(occs[m].at == place);
    assert(places.contains(place));
    lemma_item_at(occs, m);
    let k = choose|k: int| 0 <= k < items.len() && items[k] == (occs[m].indexes, occs[m].fields);
    record_laws::law_items_of_a_place(outdir, occs, place, container);
    let own = records::place_records(outdir, occs, place, container);
    let j = record_laws::law_every_item_has_a_record(
        path::reference(outdir, place),
        path::child_prefix(outdir, place),
        items,
        container,
        k,
    );
    lemma_in_places(outdir, occs, places, place, own[j], container);
    let all = records::collection_records(outdir, occs, container);
    choose|i: int| 0 <= i < all.len() && all[i] == own[j]
}

proof fn lemma_item_at(occs: Seq<Occ<Seq<Seq<char>>>>, m: int)
    requires
        0 <= m < occs.len(),
    ensures
        record_laws::items_at(occs, occs[m].at).contains((occs[m].indexes, occs[m].fields)),
{
    let place = occs[m].at;
    let pairs = records::place_items(occs);
    let x = (occs[m].indexes, occs[m].fields);
    record_laws::lemma_items_at(occs, place);
    assert(pairs[m] == (place, x));
    assert(pairs.contains((place, x)));
    crate::same_records::lemma_under_contains(pairs, place, x);
}

proof fn lemma_in_places(
    outdir: Seq<char>,
    occs: Seq<Occ<Seq<Seq<char>>>>,
    places: Seq<Seq<Seq<char>>>,
    place: Seq<Seq<char>>,
    rec: Rec,
    container: bool,
)
    requires
        places.contains(place),
        records::place_records(outdir, occs, place, container).contains(rec),
    ensures
        records::places_records(outdir, occs, places, container).contains(rec),
    decreases places.len(),
{
    let d = places.drop_last();
    let n = places.len() - 1;
    crate::same_records::lemma_concat_contains(
        records::places_records(outdir, occs, d, container),
        records::place_records(outdir, occs, places[n], container),
        rec,
    );
    if places[n] != place {
        let k = choose|k: int| 0 <= k < places.len() && places[k] == place;
        assert(d[k] == place);
        lemma_in_places(outdir, occs, d, place, rec, container);
    }
}

} // verus!
