//! Graphs of the relations between schemas.

use crate::order;
use crate::ordmap::{Key, OrdMap};
use crate::records;
use crate::report::{Descending, IndexTables};
use crate::report;
use crate::text;
use crate::text::{chars_of, decimal_text, join_texts, replace_char, same_text, signed_decimal_text, sorted_vec};
use vstd::prelude::*;

verus! {

/// The format of a graph.
#[derive(Clone, Copy, PartialEq, Eq, Structural, Debug)]
pub enum GraphFormat {
    Mermaid,
    MermaidMd,
    Dot,
}

/// The file name of a graph that was given none.
pub open spec fn default_name(format: GraphFormat) -> Seq<char> {
    match format {
        GraphFormat::Mermaid => "schema.mmd"@,
        GraphFormat::MermaidMd => "schema.md"@,
        GraphFormat::Dot => "schema.dot"@,
    }
}

impl GraphFormat {
    pub fn default_filename(self) -> (r: &'static str)
        ensures
            r@ == default_name(self),
    {
        match self {
            GraphFormat::Mermaid => "schema.mmd",
            GraphFormat::MermaidMd => "schema.md",
            GraphFormat::Dot => "schema.dot",
        }
    }
}

/// Where a graph goes: to a file of its own, or into a directory under the default name.
#[derive(Debug)]
pub enum GraphOutput {
    File(String),
    Directory(String, &'static str),
}

pub ghost enum GraphPlace {
    File(Seq<char>),
    Directory(Seq<char>, Seq<char>),
}

pub open spec fn output_model(o: GraphOutput) -> GraphPlace {
    match o {
        GraphOutput::File(p) => GraphPlace::File(p@),
        GraphOutput::Directory(d, n) => GraphPlace::Directory(d@, n@),
    }
}

/// Stands for a graph file that was asked for without a name.
pub open spec fn no_name() -> Seq<char> {
    "__default_graph_path__"@
}

/// A path without what does not count at its end: separators, and dots that stand alone behind
/// them.
pub open spec fn without_path_end(t: Seq<char>) -> Seq<char>
    decreases t.len(),
{
    if t.len() > 1 && t.last() == '/' {
        without_path_end(t.drop_last())
    } else if t.len() > 2 && t.last() == '.' && t[t.len() - 2] == '/' {
        without_path_end(t.drop_last().drop_last())
    } else {
        t
    }
}

/// The path leads to the file that stands for none.
fn is_no_name(path: &str) -> (r: bool)
    ensures
        r == (without_path_end(path@) == no_name()),
{
    let chars = chars_of(path);
    let mut n: usize = chars.len();
    assert(path@.take(n as int) =~= path@);
    while n > 1 && (chars[n - 1] == '/' || (n > 2 && chars[n - 1] == '.' && chars[n - 2] == '/'))
        invariant
            chars@ == path@,
            n <= path@.len(),
            without_path_end(path@) == without_path_end(path@.take(n as int)),
        decreases n,
    {
        let ghost t = path@.take(n as int);
        if chars[n - 1] == '/' {
            assert(t.drop_last() =~= path@.take(n - 1));
            n = n - 1;
        } else {
            assert(t.drop_last().drop_last() =~= path@.take(n - 2));
            n = n - 2;
        }
    }
    assert(path@.subrange(0, n as int) =~= path@.take(n as int));
    same_text(path.substring_char(0, n), "__default_graph_path__")
}

/// Where a graph goes, if one was asked for. `output` is the file that was named, if any;
/// `sqlite_parent` is the directory of the index that the graph is read from, if it is read
/// from one.
pub open spec fn graph_place(
    requested: bool,
    output: Option<Seq<char>>,
    outdir: Seq<char>,
    sqlite_parent: Option<Seq<char>>,
    format: GraphFormat,
) -> Option<GraphPlace> {
    if !requested {
        None
    } else if output is Some && without_path_end(output->0) != no_name() {
        Some(GraphPlace::File(output->0))
    } else if sqlite_parent is Some {
        Some(GraphPlace::Directory(sqlite_parent->0, default_name(format)))
    } else {
        Some(GraphPlace::Directory(outdir, default_name(format)))
    }
}

pub open spec fn str_option(t: Option<&str>) -> Option<Seq<char>> {
    match t {
        Some(t) => Some(t@),
        None => None,
    }
}

pub fn resolve_graph_output_path(
    graph_requested: bool,
    graph_output: Option<&str>,
    outdir: &str,
    sqlite_parent: Option<&str>,
    graph_format: GraphFormat,
) -> (r: Option<GraphOutput>)
    ensures
        match r {
            Some(o) => graph_place(
                graph_requested,
                str_option(graph_output),
                outdir@,
                str_option(sqlite_parent),
                graph_format,
            ) == Some(output_model(o)),
            None => graph_place(
                graph_requested,
                str_option(graph_output),
                outdir@,
                str_option(sqlite_parent),
                graph_format,
            ) is None,
        },
{
    if !graph_requested {
        return None;
    }
    if let Some(output) = graph_output {
        if !is_no_name(output) {
            return Some(GraphOutput::File(output.to_string()));
        }
    }
    match sqlite_parent {
        Some(parent) => Some(
            GraphOutput::Directory(parent.to_string(), graph_format.default_filename()),
        ),
        None => Some(GraphOutput::Directory(outdir.to_string(), graph_format.default_filename())),
    }
}

/// A schema in a graph.
#[derive(Debug)]
pub struct DotNode {
    pub schema_path: String,
    pub schema_kind: String,
    pub object_count: i64,
}

/// A relation in a graph.
#[derive(Debug)]
pub struct DotRelation {
    pub from_schema_path: String,
    pub to_schema_path: String,
    pub relation_kind: String,
    pub fk_owner: String,
    pub fk_candidate: bool,
    pub field_name: String,
    pub cardinality: String,
    pub required: bool,
    pub mixed: bool,
    pub nested_array_depth: usize,
    pub via_schema_path: Option<String>,
    pub via_array_path: Option<String>,
    pub parent_object_count: i64,
    pub child_object_count: i64,
    pub field_count: i64,
}

pub open spec fn mermaid_escaped(value: Seq<char>) -> Seq<char> {
    text::replaced(
        text::replaced(text::replaced(value, '&', "&amp;"@), '"', "&quot;"@),
        '|',
        "&#124;"@,
    )
}

pub fn mermaid_label(value: &str) -> (r: String)
    ensures
        r@ == mermaid_escaped(value@),
{
    let a = replace_char(value, '&', "&amp;");
    let b = replace_char(a.as_str(), '"', "&quot;");
    replace_char(b.as_str(), '|', "&#124;")
}

/// One of the four directions, `LR` for anything else.
pub open spec fn direction(rankdir: Seq<char>) -> Seq<char> {
    if rankdir == "LR"@ || rankdir == "TB"@ || rankdir == "RL"@ || rankdir == "BT"@ {
        rankdir
    } else {
        "LR"@
    }
}

pub fn mermaid_direction(rankdir: &str) -> (r: &'static str)
    ensures
        r@ == direction(rankdir@),
{
    if same_text(rankdir, "TB") {
        "TB"
    } else if same_text(rankdir, "RL") {
        "RL"
    } else if same_text(rankdir, "BT") {
        "BT"
    } else {
        "LR"
    }
}

pub fn dot_id(value: &str) -> (r: String)
    ensures
        r@ == direction(value@),
{
    mermaid_direction(value).to_string()
}

pub open spec fn dot_quoted(value: Seq<char>) -> Seq<char> {
    "\""@ + text::replaced(
        text::replaced(text::replaced(value, '\\', "\\\\"@), '"', "\\\""@),
        '\n',
        "\\n"@,
    ) + "\""@
}

pub fn dot_string(value: &str) -> (r: String)
    ensures
        r@ == dot_quoted(value@),
{
    let a = replace_char(value, '\\', "\\\\");
    let b = replace_char(a.as_str(), '"', "\\\"");
    let c = replace_char(b.as_str(), '\n', "\\n");
    let mut out = "\"".to_string();
    out.append(c.as_str());
    out.append("\"");
    out
}

/// `n` times `[*]`.
pub open spec fn stars(n: nat) -> Seq<char>
    decreases n,
{
    if n == 0 {
        Seq::empty()
    } else {
        stars((n - 1) as nat) + "[*]"@
    }
}

/// The name of a field with the arrays around its items.
pub open spec fn edge_label(r: DotRelation) -> Seq<char> {
    if r.relation_kind@ == "array_item"@ || r.relation_kind@ == "heterogeneous_array_item"@ {
        r.field_name@ + "[*]"@
    } else if r.relation_kind@ == "nested_array_item"@ {
        r.field_name@ + stars(r.nested_array_depth as nat)
    } else {
        r.field_name@
    }
}

pub fn relation_edge_label(relation: &DotRelation) -> (r: String)
    ensures
        r@ == edge_label(*relation),
{
    let kind = relation.relation_kind.as_str();
    let mut out = relation.field_name.clone();
    if same_text(kind, "array_item") || same_text(kind, "heterogeneous_array_item") {
        out.append("[*]");
    } else if same_text(kind, "nested_array_item") {
        let ghost name = out@;
        let mut i: usize = 0;
        assert(name + stars(0) =~= name);
        while i < relation.nested_array_depth
            invariant
                i <= relation.nested_array_depth,
                out@ == name + stars(i as nat),
            decreases relation.nested_array_depth - i,
        {
            out.append("[*]");
            assert(out@ =~= name + stars((i + 1) as nat));
            i = i + 1;
        }
    }
    out
}

/// The identifier of the `i`th node.
pub open spec fn node_id(i: nat) -> Seq<char> {
    "n"@ + text::decimal(i)
}

/// The line of a node.
pub open spec fn mermaid_node(node: DotNode, i: nat) -> Seq<char> {
    "  "@ + node_id(i) + "[\""@ + mermaid_escaped(
        node.schema_path@ + "<br/>kind="@ + node.schema_kind@ + "<br/>object_count="@
            + text::signed_decimal(node.object_count as int),
    ) + "\"]\n"@
}

pub open spec fn mermaid_nodes(nodes: Seq<DotNode>) -> Seq<char>
    decreases nodes.len(),
{
    if nodes.len() == 0 {
        Seq::empty()
    } else {
        mermaid_nodes(nodes.drop_last()) + mermaid_node(
            nodes.last(),
            (nodes.len() - 1) as nat,
        )
    }
}

/// The number of the last node with a path.
pub open spec fn node_index(nodes: Seq<DotNode>, p: Seq<char>) -> Option<nat>
    decreases nodes.len(),
{
    if nodes.len() == 0 {
        None
    } else if nodes.last().schema_path@ == p {
        Some((nodes.len() - 1) as nat)
    } else {
        node_index(nodes.drop_last(), p)
    }
}

pub open spec fn edge_parts(r: DotRelation) -> Seq<Seq<char>> {
    seq![edge_label(r), r.relation_kind@, r.cardinality@] + seq![
        if r.required {
            "required"@
        } else {
            "optional"@
        },
    ] + (if r.mixed {
        seq!["mixed"@]
    } else {
        Seq::empty()
    }) + (if r.nested_array_depth >= 2 {
        seq!["depth="@ + text::decimal(r.nested_array_depth as nat)]
    } else {
        Seq::empty()
    })
}

/// The line of a relation; nothing if one of its ends is no node.
pub open spec fn mermaid_edge(nodes: Seq<DotNode>, r: DotRelation) -> Seq<char> {
    match (node_index(nodes, r.from_schema_path@), node_index(nodes, r.to_schema_path@)) {
        (Some(a), Some(b)) => {
            let label = mermaid_escaped(text::joined(edge_parts(r), "<br/>"@));
            if r.fk_candidate {
                "  "@ + node_id(a) + " -->|\""@ + label + "\"| "@ + node_id(b) + "\n"@
            } else {
                "  "@ + node_id(a) + " -. \""@ + label + "\" .-> "@ + node_id(b) + "\n"@
            }
        },
        _ => Seq::empty(),
    }
}

pub open spec fn mermaid_edges(nodes: Seq<DotNode>, relations: Seq<DotRelation>) -> Seq<char>
    decreases relations.len(),
{
    if relations.len() == 0 {
        Seq::empty()
    } else {
        mermaid_edges(nodes, relations.drop_last()) + mermaid_edge(nodes, relations.last())
    }
}

/// A graph in Mermaid's notation, perhaps in a Markdown fence.
pub open spec fn mermaid_graph(
    nodes: Seq<DotNode>,
    relations: Seq<DotRelation>,
    rankdir: Seq<char>,
    fence: bool,
) -> Seq<char> {
    (if fence {
        "```mermaid\n"@
    } else {
        Seq::empty()
    }) + "flowchart "@ + direction(rankdir) + "\n"@ + mermaid_nodes(nodes) + (if nodes.len() > 0 {
        "\n"@
    } else {
        Seq::empty()
    }) + mermaid_edges(nodes, relations) + (if fence {
        "```\n"@
    } else {
        Seq::empty()
    })
}

/// The numbers of the nodes by their paths.
fn node_numbers(nodes: &Vec<DotNode>) -> (r: OrdMap<String, usize>)
    ensures
        r.wf(),
        forall|p: Seq<char>| #[trigger]
            r.map().contains_key(p) <==> node_index(nodes@, p) is Some,
        forall|p: Seq<char>| #[trigger]
            r.map().contains_key(p) ==> node_index(nodes@, p) == Some(r.map()[p] as nat),
{
    let mut m: OrdMap<String, usize> = OrdMap::new();
    let mut i: usize = 0;
    assert(nodes@.take(0) =~= Seq::empty());
    while i < nodes.len()
        invariant
            i <= nodes@.len(),
            m.wf(),
            forall|p: Seq<char>| #[trigger]
                m.map().contains_key(p) <==> node_index(nodes@.take(i as int), p) is Some,
            forall|p: Seq<char>| #[trigger]
                m.map().contains_key(p) ==> node_index(nodes@.take(i as int), p) == Some(
                    m.map()[p] as nat,
                ),
        decreases nodes@.len() - i,
    {
        assert(nodes@.take(i + 1).drop_last() =~= nodes@.take(i as int));
        assert(nodes@.take(i + 1).last() == nodes@[i as int]);
        m.insert(nodes[i].schema_path.clone(), i);
        i = i + 1;
    }
    assert(nodes@.take(nodes@.len() as int) =~= nodes@);
    m
}

fn push_node_id(out: &mut String, i: usize)
    ensures
        final(out)@ == old(out)@ + node_id(i as nat),
{
    let ghost before = out@;
    out.append("n");
    out.append(decimal_text(i as u128).as_str());
    assert(out@ =~= before + node_id(i as nat));
}

fn push_mermaid_node(out: &mut String, node: &DotNode, i: usize)
    ensures
        final(out)@ == old(out)@ + mermaid_node(*node, i as nat),
{
    let ghost before = out@;
    let mut label = node.schema_path.clone();
    label.append("<br/>kind=");
    label.append(node.schema_kind.as_str());
    label.append("<br/>object_count=");
    label.append(signed_decimal_text(node.object_count).as_str());
    out.append("  ");
    push_node_id(out, i);
    out.append("[\"");
    out.append(mermaid_label(label.as_str()).as_str());
    out.append("\"]\n");
    assert(out@ =~= before + mermaid_node(*node, i as nat));
}

fn edge_texts(relation: &DotRelation) -> (r: Vec<String>)
    ensures
        text::models(r@) == edge_parts(*relation),
{
    let mut parts: Vec<String> = Vec::new();
    parts.push(relation_edge_label(relation));
    parts.push(relation.relation_kind.clone());
    parts.push(relation.cardinality.clone());
    if relation.required {
        parts.push("required".to_string());
    } else {
        parts.push("optional".to_string());
    }
    if relation.mixed {
        parts.push("mixed".to_string());
    }
    if relation.nested_array_depth >= 2 {
        let mut depth = "depth=".to_string();
        depth.append(decimal_text(relation.nested_array_depth as u128).as_str());
        parts.push(depth);
    }
    assert(text::models(parts@) =~= edge_parts(*relation));
    parts
}

fn push_mermaid_edge(out: &mut String, relation: &DotRelation, from: usize, to: usize)
    ensures
        final(out)@ == old(out)@ + (if relation.fk_candidate {
            "  "@ + node_id(from as nat) + " -->|\""@ + mermaid_escaped(
                text::joined(edge_parts(*relation), "<br/>"@),
            ) + "\"| "@ + node_id(to as nat) + "\n"@
        } else {
            "  "@ + node_id(from as nat) + " -. \""@ + mermaid_escaped(
                text::joined(edge_parts(*relation), "<br/>"@),
            ) + "\" .-> "@ + node_id(to as nat) + "\n"@
        }),
{
    let ghost before = out@;
    let label = mermaid_label(join_texts(&edge_texts(relation), "<br/>").as_str());
    out.append("  ");
    push_node_id(out, from);
    if relation.fk_candidate {
        out.append(" -->|\"");
        out.append(label.as_str());
        out.append("\"| ");
        push_node_id(out, to);
        out.append("\n");
        assert(out@ =~= before + ("  "@ + node_id(from as nat) + " -->|\""@ + label@ + "\"| "@
            + node_id(to as nat) + "\n"@));
    } else {
        out.append(" -. \"");
        out.append(label.as_str());
        out.append("\" .-> ");
        push_node_id(out, to);
        out.append("\n");
        assert(out@ =~= before + ("  "@ + node_id(from as nat) + " -. \""@ + label@ + "\" .-> "@
            + node_id(to as nat) + "\n"@));
    }
}

pub fn render_mermaid_graph(
    nodes: &Vec<DotNode>,
    relations: &Vec<DotRelation>,
    rankdir: &str,
    markdown_fence: bool,
) -> (r: String)
    ensures
        r@ == mermaid_graph(nodes@, relations@, rankdir@, markdown_fence),
{
    let mut out = String::new();
    if markdown_fence {
        out.append("```mermaid\n");
    }
    out.append("flowchart ");
    out.append(mermaid_direction(rankdir));
    out.append("\n");
    let ghost head = out@;
    assert(head =~= (if markdown_fence {
        "```mermaid\n"@
    } else {
        Seq::empty()
    }) + "flowchart "@ + direction(rankdir@) + "\n"@);
    let mut i: usize = 0;
    assert(nodes@.take(0) =~= Seq::empty());
    assert(head + mermaid_nodes(nodes@.take(0)) =~= head);
    while i < nodes.len()
        invariant
            i <= nodes@.len(),
            out@ == head + mermaid_nodes(nodes@.take(i as int)),
        decreases nodes@.len() - i,
    {
        assert(nodes@.take(i + 1).drop_last() =~= nodes@.take(i as int));
        push_mermaid_node(&mut out, &nodes[i], i);
        assert(out@ =~= head + mermaid_nodes(nodes@.take(i + 1)));
        i = i + 1;
    }
    assert(nodes@.take(nodes@.len() as int) =~= nodes@);
    if nodes.len() > 0 {
        out.append("\n");
    }
    let ghost middle = out@;
    let numbers = node_numbers(nodes);
    let mut i: usize = 0;
    assert(relations@.take(0) =~= Seq::empty());
    assert(middle + mermaid_edges(nodes@, relations@.take(0)) =~= middle);
    while i < relations.len()
        invariant
            i <= relations@.len(),
            numbers.wf(),
            forall|p: Seq<char>| #[trigger]
                numbers.map().contains_key(p) <==> node_index(nodes@, p) is Some,
            forall|p: Seq<char>| #[trigger]
                numbers.map().contains_key(p) ==> node_index(nodes@, p) == Some(
                    numbers.map()[p] as nat,
                ),
            out@ == middle + mermaid_edges(nodes@, relations@.take(i as int)),
        decreases relations@.len() - i,
    {
        let relation = &relations[i];
        let ghost before = out@;
        proof {
            assert(relations@.take(i + 1).drop_last() =~= relations@.take(i as int));
            assert(relations@.take(i + 1).last() == *relation);
            assert(before + Seq::<char>::empty() =~= before);
        }
        if let Some(from) = numbers.get(&relation.from_schema_path) {
            if let Some(to) = numbers.get(&relation.to_schema_path) {
                push_mermaid_edge(&mut out, relation, *from, *to);
            }
        }
        assert(out@ == before + mermaid_edge(nodes@, *relation));
        assert(out@ =~= middle + mermaid_edges(nodes@, relations@.take(i + 1)));
        i = i + 1;
    }
    assert(relations@.take(relations@.len() as int) =~= relations@);
    if markdown_fence {
        out.append("```\n");
    }
    assert(out@ =~= mermaid_graph(nodes@, relations@, rankdir@, markdown_fence));
    out
}

/// The line of a node.
pub open spec fn dot_node(node: DotNode) -> Seq<char> {
    let count = text::signed_decimal(node.object_count as int);
    "  "@ + dot_quoted(node.schema_path@) + " [label="@ + dot_quoted(
        node.schema_path@ + "\nkind="@ + node.schema_kind@ + "\nobject_count="@ + count,
    ) + ", schema_kind="@ + dot_quoted(node.schema_kind@) + ", object_count="@ + dot_quoted(count)
        + "];\n"@
}

pub open spec fn dot_nodes(nodes: Seq<DotNode>) -> Seq<char>
    decreases nodes.len(),
{
    if nodes.len() == 0 {
        Seq::empty()
    } else {
        dot_nodes(nodes.drop_last()) + dot_node(nodes.last())
    }
}

pub open spec fn truth(b: bool) -> Seq<char> {
    if b {
        "true"@
    } else {
        "false"@
    }
}

pub open spec fn attribute(key: Seq<char>, value: Seq<char>) -> Seq<char> {
    key + "="@ + dot_quoted(value)
}

pub open spec fn optional_attribute(key: Seq<char>, value: Option<Seq<char>>) -> Seq<Seq<char>> {
    match value {
        Some(v) => seq![attribute(key, v)],
        None => Seq::empty(),
    }
}

/// The attributes of a relation.
pub open spec fn dot_attributes(r: DotRelation) -> Seq<Seq<char>> {
    seq![
        attribute("label"@, edge_label(r)),
        attribute("relation_kind"@, r.relation_kind@),
        attribute("fk_owner"@, r.fk_owner@),
        attribute("fk_candidate"@, truth(r.fk_candidate)),
        attribute("field_name"@, r.field_name@),
        attribute("cardinality"@, r.cardinality@),
        attribute("required"@, truth(r.required)),
        attribute("mixed"@, truth(r.mixed)),
        attribute("nested_array_depth"@, text::decimal(r.nested_array_depth as nat)),
        attribute("parent_object_count"@, text::signed_decimal(r.parent_object_count as int)),
        attribute("child_object_count"@, text::signed_decimal(r.child_object_count as int)),
        attribute("field_count"@, text::signed_decimal(r.field_count as int)),
    ] + optional_attribute("via_schema_path"@, records::text_option(r.via_schema_path))
        + optional_attribute("via_array_path"@, records::text_option(r.via_array_path)) + (
    if r.fk_candidate {
        Seq::empty()
    } else {
        seq![attribute("style"@, "dashed"@)]
    })
}

/// The line of a relation.
pub open spec fn dot_edge(r: DotRelation) -> Seq<char> {
    "  "@ + dot_quoted(r.from_schema_path@) + " -> "@ + dot_quoted(r.to_schema_path@) + " ["@
        + text::joined(dot_attributes(r), ", "@) + "];\n"@
}

pub open spec fn dot_edges(relations: Seq<DotRelation>) -> Seq<char>
    decreases relations.len(),
{
    if relations.len() == 0 {
        Seq::empty()
    } else {
        dot_edges(relations.drop_last()) + dot_edge(relations.last())
    }
}

/// A graph in Graphviz's notation.
pub open spec fn dot_graph(
    nodes: Seq<DotNode>,
    relations: Seq<DotRelation>,
    rankdir: Seq<char>,
) -> Seq<char> {
    "digraph schema_fk {\n  rankdir="@ + direction(rankdir) + ";\n  node [shape=box];\n\n"@
        + dot_nodes(nodes) + (if nodes.len() > 0 {
        "\n"@
    } else {
        Seq::empty()
    }) + dot_edges(relations) + "}\n"@
}

fn push_dot_node(out: &mut String, node: &DotNode)
    ensures
        final(out)@ == old(out)@ + dot_node(*node),
{
    let ghost before = out@;
    let count = signed_decimal_text(node.object_count);
    let mut label = node.schema_path.clone();
    label.append("\nkind=");
    label.append(node.schema_kind.as_str());
    label.append("\nobject_count=");
    label.append(count.as_str());
    out.append("  ");
    out.append(dot_string(node.schema_path.as_str()).as_str());
    out.append(" [label=");
    out.append(dot_string(label.as_str()).as_str());
    out.append(", schema_kind=");
    out.append(dot_string(node.schema_kind.as_str()).as_str());
    out.append(", object_count=");
    out.append(dot_string(count.as_str()).as_str());
    out.append("];\n");
    assert(out@ =~= before + dot_node(*node));
}

fn push_attribute(out: &mut Vec<String>, key: &str, value: &str)
    ensures
        text::models(final(out)@) == text::models(old(out)@).push(attribute(key@, value@)),
{
    let ghost before = out@;
    let mut t = key.to_string();
    t.append("=");
    t.append(dot_string(value).as_str());
    out.push(t);
    assert(text::models(out@) =~= text::models(before).push(attribute(key@, value@)));
}

fn truth_text(b: bool) -> (r: &'static str)
    ensures
        r@ == truth(b),
{
    if b {
        "true"
    } else {
        "false"
    }
}

fn attribute_texts(relation: &DotRelation) -> (r: Vec<String>)
    ensures
        text::models(r@) == dot_attributes(*relation),
{
    let mut out: Vec<String> = Vec::new();
    push_attribute(&mut out, "label", relation_edge_label(relation).as_str());
    push_attribute(&mut out, "relation_kind", relation.relation_kind.as_str());
    push_attribute(&mut out, "fk_owner", relation.fk_owner.as_str());
    push_attribute(&mut out, "fk_candidate", truth_text(relation.fk_candidate));
    push_attribute(&mut out, "field_name", relation.field_name.as_str());
    push_attribute(&mut out, "cardinality", relation.cardinality.as_str());
    push_attribute(&mut out, "required", truth_text(relation.required));
    push_attribute(&mut out, "mixed", truth_text(relation.mixed));
    push_attribute(
        &mut out,
        "nested_array_depth",
        decimal_text(relation.nested_array_depth as u128).as_str(),
    );
    push_attribute(
        &mut out,
        "parent_object_count",
        signed_decimal_text(relation.parent_object_count).as_str(),
    );
    push_attribute(
        &mut out,
        "child_object_count",
        signed_decimal_text(relation.child_object_count).as_str(),
    );
    push_attribute(
        &mut out,
        "field_count",
        signed_decimal_text(relation.field_count).as_str(),
    );
    if let Some(p) = &relation.via_schema_path {
        push_attribute(&mut out, "via_schema_path", p.as_str());
    }
    if let Some(p) = &relation.via_array_path {
        push_attribute(&mut out, "via_array_path", p.as_str());
    }
    if !relation.fk_candidate {
        push_attribute(&mut out, "style", "dashed");
    }
    assert(text::models(out@) =~= dot_attributes(*relation));
    out
}

fn push_dot_edge(out: &mut String, relation: &DotRelation)
    ensures
        final(out)@ == old(out)@ + dot_edge(*relation),
{
    let ghost before = out@;
    out.append("  ");
    out.append(dot_string(relation.from_schema_path.as_str()).as_str());
    out.append(" -> ");
    out.append(dot_string(relation.to_schema_path.as_str()).as_str());
    out.append(" [");
    out.append(join_texts(&attribute_texts(relation), ", ").as_str());
    out.append("];\n");
    assert(out@ =~= before + dot_edge(*relation));
}

pub fn render_dot_graph(nodes: &Vec<DotNode>, relations: &Vec<DotRelation>, rankdir: &str) -> (r:
    String)
    ensures
        r@ == dot_graph(nodes@, relations@, rankdir@),
{
    let mut out = "digraph schema_fk {\n  rankdir=".to_string();
    out.append(dot_id(rankdir).as_str());
    out.append(";\n  node [shape=box];\n\n");
    let ghost head = out@;
    let mut i: usize = 0;
    assert(nodes@.take(0) =~= Seq::empty());
    assert(head + dot_nodes(nodes@.take(0)) =~= head);
    while i < nodes.len()
        invariant
            i <= nodes@.len(),
            out@ == head + dot_nodes(nodes@.take(i as int)),
        decreases nodes@.len() - i,
    {
        assert(nodes@.take(i + 1).drop_last() =~= nodes@.take(i as int));
        push_dot_node(&mut out, &nodes[i]);
        assert(out@ =~= head + dot_nodes(nodes@.take(i + 1)));
        i = i + 1;
    }
    assert(nodes@.take(nodes@.len() as int) =~= nodes@);
    if nodes.len() > 0 {
        out.append("\n");
    }
    let ghost middle = out@;
    let mut i: usize = 0;
    assert(relations@.take(0) =~= Seq::empty());
    assert(middle + dot_edges(relations@.take(0)) =~= middle);
    while i < relations.len()
        invariant
            i <= relations@.len(),
            out@ == middle + dot_edges(relations@.take(i as int)),
        decreases relations@.len() - i,
    {
        assert(relations@.take(i + 1).drop_last() =~= relations@.take(i as int));
        push_dot_edge(&mut out, &relations[i]);
        assert(out@ =~= middle + dot_edges(relations@.take(i + 1)));
        i = i + 1;
    }
    assert(relations@.take(relations@.len() as int) =~= relations@);
    out.append("}\n");
    assert(out@ =~= dot_graph(nodes@, relations@, rankdir@));
    out
}

/// The text of a graph in the format `format`.
pub open spec fn graph_text(
    nodes: Seq<DotNode>,
    relations: Seq<DotRelation>,
    rankdir: Seq<char>,
    format: GraphFormat,
) -> Seq<char> {
    match format {
        GraphFormat::Mermaid => mermaid_graph(nodes, relations, rankdir, false),
        GraphFormat::MermaidMd => mermaid_graph(nodes, relations, rankdir, true),
        GraphFormat::Dot => dot_graph(nodes, relations, rankdir),
    }
}

pub fn render_graph(
    nodes: &Vec<DotNode>,
    relations: &Vec<DotRelation>,
    rankdir: &str,
    graph_format: GraphFormat,
) -> (r: String)
    ensures
        r@ == graph_text(nodes@, relations@, rankdir@, graph_format),
{
    match graph_format {
        GraphFormat::Mermaid => render_mermaid_graph(nodes, relations, rankdir, false),
        GraphFormat::MermaidMd => render_mermaid_graph(nodes, relations, rankdir, true),
        GraphFormat::Dot => render_dot_graph(nodes, relations, rankdir),
    }
}

/// The relations that a graph shows, in their order: those that could be foreign keys, or all.
pub open spec fn shown(relations: Seq<DotRelation>, include_marked: bool) -> Seq<DotRelation>
    decreases relations.len(),
{
    if relations.len() == 0 {
        Seq::empty()
    } else if include_marked || relations.last().fk_candidate {
        shown(relations.drop_last(), include_marked).push(relations.last())
    } else {
        shown(relations.drop_last(), include_marked)
    }
}

/// Candidates for foreign keys come first, then kind, ends and field decide.
pub open spec fn relation_key(r: DotRelation) -> (
    (((nat, Seq<char>), Seq<char>), Seq<char>),
    Seq<char>,
) {
    (
        (
            (
                (
                    if r.fk_candidate {
                        0nat
                    } else {
                        1
                    },
                    r.relation_kind@,
                ),
                r.from_schema_path@,
            ),
            r.to_schema_path@,
        ),
        r.field_name@,
    )
}

/// The relations of a graph in their order; relations with the same key keep theirs.
pub open spec fn graph_relations(relations: Seq<DotRelation>, include_marked: bool) -> Seq<
    DotRelation,
> {
    let kept = shown(relations, include_marked);
    let ranks = order::ranked(Seq::new(kept.len(), |i: int| relation_key(kept[i])));
    Seq::new(ranks.len(), |i: int| kept[ranks[i].1 as int])
}

/// A schema is an end of a relation.
pub open spec fn is_end(relations: Seq<DotRelation>, p: Seq<char>) -> bool {
    exists|i: int|
        0 <= i < relations.len() && ((#[trigger] relations[i]).from_schema_path@ == p
            || relations[i].to_schema_path@ == p)
}

/// The first `n` schemas as far as they are ends of relations.
pub open spec fn end_list(t: IndexTables, relations: Seq<DotRelation>, n: int) -> Seq<
    (nat, Seq<char>),
>
    decreases n,
{
    if n <= 0 {
        Seq::empty()
    } else {
        let p = t.definitions.entries@[n - 1].0@;
        if is_end(relations, p) {
            end_list(t, relations, n - 1).push((report::rank(t.count_of(p)), p))
        } else {
            end_list(t, relations, n - 1)
        }
    }
}

/// The schemas of a graph: those with the most objects first, then by path.
pub open spec fn node_order(t: IndexTables, relations: Seq<DotRelation>) -> Seq<(nat, Seq<char>)> {
    order::sorted_set(end_list(t, relations, t.definitions.entries@.len() as int))
}

pub open spec fn graph_nodes(t: IndexTables, relations: Seq<DotRelation>, nodes: Seq<DotNode>) -> bool {
    &&& nodes.len() == node_order(t, relations).len()
    &&& forall|i: int|
        0 <= i < nodes.len() ==> {
            let p = node_order(t, relations)[i].1;
            &&& (#[trigger] nodes[i]).schema_path@ == p
            &&& nodes[i].schema_kind@ == t.kind_of(p)
            &&& nodes[i].object_count == t.count_of(p)
        }
}

fn copy_option(t: &Option<String>) -> (r: Option<String>)
    ensures
        r == *t,
{
    match t {
        Some(t) => Some(t.clone()),
        None => None,
    }
}

fn copy_relation(relation: &DotRelation) -> (r: DotRelation)
    ensures
        r == *relation,
{
    DotRelation {
        from_schema_path: relation.from_schema_path.clone(),
        to_schema_path: relation.to_schema_path.clone(),
        relation_kind: relation.relation_kind.clone(),
        fk_owner: relation.fk_owner.clone(),
        fk_candidate: relation.fk_candidate,
        field_name: relation.field_name.clone(),
        cardinality: relation.cardinality.clone(),
        required: relation.required,
        mixed: relation.mixed,
        nested_array_depth: relation.nested_array_depth,
        via_schema_path: copy_option(&relation.via_schema_path),
        via_array_path: copy_option(&relation.via_array_path),
        parent_object_count: relation.parent_object_count,
        child_object_count: relation.child_object_count,
        field_count: relation.field_count,
    }
}

/// The relations of a graph in their order.
fn ordered_relations(relations: &Vec<DotRelation>, include_marked: bool) -> (r: Vec<DotRelation>)
    ensures
        r@ == graph_relations(relations@, include_marked),
{
    let mut kept: Vec<&DotRelation> = Vec::new();
    let mut i: usize = 0;
    let ghost all = relations@;
    assert(all.take(0) =~= Seq::empty());
    while i < relations.len()
        invariant
            all == relations@,
            i <= all.len(),
            kept@.len() == shown(all.take(i as int), include_marked).len(),
            forall|j: int|
                0 <= j < kept@.len() ==> *(#[trigger] kept@[j]) == shown(
                    all.take(i as int),
                    include_marked,
                )[j],
        decreases all.len() - i,
    {
        proof {
            assert(all.take(i + 1).drop_last() =~= all.take(i as int));
            assert(all.take(i + 1).last() == all[i as int]);
        }
        if include_marked || relations[i].fk_candidate {
            kept.push(&relations[i]);
        }
        i = i + 1;
    }
    assert(all.take(all.len() as int) =~= all);
    let ghost list = shown(all, include_marked);
    let ghost list_keys = Seq::new(list.len(), |i: int| relation_key(list[i]));
    let mut keys: Vec<(((((usize, String), String), String), String), usize)> = Vec::new();
    let mut i: usize = 0;
    while i < kept.len()
        invariant
            i <= kept@.len(),
            kept@.len() == list.len(),
            forall|j: int| 0 <= j < kept@.len() ==> *(#[trigger] kept@[j]) == list[j],
            keys@.len() == i,
            forall|j: int|
                0 <= j < i ==> (#[trigger] keys@[j]).0.model() == relation_key(list[j])
                    && keys@[j].1 == j,
        decreases kept@.len() - i,
    {
        let r = kept[i];
        let candidate: usize = if r.fk_candidate {
            0
        } else {
            1
        };
        let key = (
            (
                ((candidate, r.relation_kind.clone()), r.from_schema_path.clone()),
                r.to_schema_path.clone(),
            ),
            r.field_name.clone(),
        );
        assert(key.model() == relation_key(list[i as int]));
        keys.push((key, i));
        i = i + 1;
    }
    let ghost ranks = order::ranked(list_keys);
    proof {
        assert(text::models(keys@) =~= Seq::new(
            list_keys.len(),
            |j: int| (list_keys[j], j as nat),
        ));
        order::lemma_ranked(list_keys);
    }
    let ranking = sorted_vec(keys);
    let ghost target = graph_relations(all, include_marked);
    let mut out: Vec<DotRelation> = Vec::new();
    let mut i: usize = 0;
    while i < ranking.len()
        invariant
            i <= ranking@.len(),
            kept@.len() == list.len(),
            forall|j: int| 0 <= j < kept@.len() ==> *(#[trigger] kept@[j]) == list[j],
            list == shown(all, include_marked),
            list_keys == Seq::new(list.len(), |i: int| relation_key(list[i])),
            ranks == order::ranked(list_keys),
            text::models(ranking@) == ranks,
            forall|j: int| 0 <= j < ranks.len() ==> (#[trigger] ranks[j]).1 < list_keys.len(),
            target == graph_relations(all, include_marked),
            out@ == target.take(i as int),
        decreases ranking@.len() - i,
    {
        proof {
            assert(text::models(ranking@)[i as int] == ranking@[i as int].model());
            assert(ranks[i as int].1 < list_keys.len());
            assert(target.take(i + 1) =~= target.take(i as int).push(target[i as int]));
        }
        out.push(copy_relation(kept[ranking[i].1]));
        i = i + 1;
    }
    assert(target.take(target.len() as int) =~= target);
    out
}

/// The paths at the ends of relations.
fn ends_of(relations: &Vec<DotRelation>) -> (r: OrdMap<String, ()>)
    ensures
        r.wf(),
        forall|p: Seq<char>| #[trigger] r.map().contains_key(p) <==> is_end(relations@, p),
{
    let mut ends: OrdMap<String, ()> = OrdMap::new();
    let mut i: usize = 0;
    while i < relations.len()
        invariant
            i <= relations@.len(),
            ends.wf(),
            forall|p: Seq<char>| #[trigger]
                ends.map().contains_key(p) <==> is_end(relations@.take(i as int), p),
        decreases relations@.len() - i,
    {
        let ghost before = ends;
        let ghost r = relations@[i as int];
        ends.insert(relations[i].from_schema_path.clone(), ());
        ends.insert(relations[i].to_schema_path.clone(), ());
        proof {
            let some = relations@.take(i as int);
            let more = relations@.take(i + 1);
            assert forall|p: Seq<char>| #[trigger] ends.map().contains_key(p) <==> is_end(more, p) by {
                if ends.map().contains_key(p) {
                    if before.map().contains_key(p) {
                        assert(is_end(some, p));
                        let j = choose|j: int|
                            0 <= j < some.len() && ((#[trigger] some[j]).from_schema_path@ == p
                                || some[j].to_schema_path@ == p);
                        assert(more[j] == some[j]);
                    } else {
                        assert(more[i as int] == r);
                    }
                }
                if is_end(more, p) {
                    let j = choose|j: int|
                        0 <= j < more.len() && ((#[trigger] more[j]).from_schema_path@ == p
                            || more[j].to_schema_path@ == p);
                    if j < i {
                        assert(some[j] == more[j]);
                        assert(is_end(some, p));
                        assert(before.map().contains_key(p));
                    }
                }
            }
        }
        i = i + 1;
    }
    assert(relations@.take(relations@.len() as int) =~= relations@);
    ends
}

proof fn lemma_end_list(t: IndexTables, relations: Seq<DotRelation>, n: int, k: (nat, Seq<char>))
    requires
        t.wf(),
        n <= t.definitions.entries@.len(),
        end_list(t, relations, n).contains(k),
    ensures
        t.definitions.map().contains_key(k.1),
    decreases n,
{
    if n > 0 {
        let p = t.definitions.entries@[n - 1].0@;
        t.definitions.lemma_entry(n - 1);
        if is_end(relations, p) {
            let whole = end_list(t, relations, n);
            let i = choose|i: int| 0 <= i < whole.len() && whole[i] == k;
            if i < end_list(t, relations, n - 1).len() {
                assert(end_list(t, relations, n - 1)[i] == k);
                lemma_end_list(t, relations, n - 1, k);
            }
        } else {
            lemma_end_list(t, relations, n - 1, k);
        }
    }
}

fn nodes_of(t: &IndexTables, relations: &Vec<DotRelation>) -> (r: Vec<DotNode>)
    requires
        t.wf(),
    ensures
        graph_nodes(*t, relations@, r@),
{
    let ends = ends_of(relations);
    let rows = &t.definitions.entries;
    let mut list: Vec<(Descending, String)> = Vec::new();
    let mut i: usize = 0;
    assert(text::models(list@) =~= Seq::empty());
    while i < rows.len()
        invariant
            t.wf(),
            ends.wf(),
            forall|p: Seq<char>| #[trigger] ends.map().contains_key(p) <==> is_end(relations@, p),
            *rows == t.definitions.entries,
            i <= rows@.len(),
            text::models(list@) == end_list(*t, relations@, i as int),
        decreases rows@.len() - i,
    {
        let p = &rows[i].0;
        if ends.get(p).is_some() {
            let ghost before = list@;
            list.push((Descending { value: t.object_count(p) }, p.clone()));
            assert(text::models(list@) =~= text::models(before).push(
                (report::rank(t.count_of(p@)), p@),
            ));
        }
        i = i + 1;
    }
    let ghost whole = end_list(*t, relations@, rows@.len() as int);
    let sorted = sorted_vec(list);
    let mut out: Vec<DotNode> = Vec::new();
    let mut i: usize = 0;
    while i < sorted.len()
        invariant
            t.wf(),
            i <= sorted@.len(),
            whole == end_list(*t, relations@, t.definitions.entries@.len() as int),
            text::models(sorted@) == order::sorted_set(whole),
            out@.len() == i,
            forall|j: int|
                0 <= j < i ==> {
                    let p = node_order(*t, relations@)[j].1;
                    &&& (#[trigger] out@[j]).schema_path@ == p
                    &&& out@[j].schema_kind@ == t.kind_of(p)
                    &&& out@[j].object_count == t.count_of(p)
                },
        decreases sorted@.len() - i,
    {
        let p = &sorted[i].1;
        proof {
            assert(text::models(sorted@)[i as int] == sorted@[i as int].model());
            report::lemma_sorted_elements(whole, i as int);
            lemma_end_list(
                *t,
                relations@,
                t.definitions.entries@.len() as int,
                node_order(*t, relations@)[i as int],
            );
        }
        let schema_kind = match t.definitions.get(p) {
            Some(kind) => kind.clone(),
            None => String::new(),
        };
        out.push(
            DotNode { schema_path: p.clone(), schema_kind, object_count: t.object_count(p) },
        );
        i = i + 1;
    }
    out
}

/// The nodes and relations of a graph of the index `t`, whose relations are `relations`.
pub fn load_graph_data(t: &IndexTables, relations: &Vec<DotRelation>, include_marked: bool) -> (r: (
    Vec<DotNode>,
    Vec<DotRelation>,
))
    requires
        t.wf(),
    ensures
        r.1@ == graph_relations(relations@, include_marked),
        graph_nodes(*t, r.1@, r.0@),
{
    let kept = ordered_relations(relations, include_marked);
    let nodes = nodes_of(t, &kept);
    (nodes, kept)
}

} // verus!
