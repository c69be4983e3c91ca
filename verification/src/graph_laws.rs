//! What holds of graphs: which lines their texts have, and what these say.

use crate::graph;
use crate::graph::{DotNode, DotRelation, GraphFormat, GraphPlace};
use crate::order;
use crate::order::Ordered;
use crate::path;
use crate::report;
use crate::report::IndexTables;
use crate::report_laws;
use crate::text;
use vstd::prelude::*;

verus! {

/// A text in quotes, in Graphviz's notation: two parts of a text are written one behind the
/// other, backslashes, quotes and line feeds with a backslash ahead of them, every other
/// character as it is.
pub proof fn law_dot_quotes(a: Seq<char>, b: Seq<char>, c: char)
    ensures
        ({
            let x = graph::dot_quoted(a);
            let y = graph::dot_quoted(b);
            &&& x.len() >= 2 && x[0] == '"' && x.last() == '"'
            &&& graph::dot_quoted(a + b) == x.drop_last() + y.drop_first()
        }),
        graph::dot_quoted(seq!['"']) == seq!['"', '\\', '"', '"'],
        graph::dot_quoted(seq!['\\']) == seq!['"', '\\', '\\', '"'],
        graph::dot_quoted(seq!['\n']) == seq!['"', '\\', 'n', '"'],
        c != '"' && c != '\\' && c != '\n' ==> graph::dot_quoted(seq![c]) == seq!['"', c, '"'],
{
    reveal_strlit("\"");
    reveal_strlit("\\\\");
    reveal_strlit("\\\"");
    reveal_strlit("\\n");
    path::lemma_replaced_concat(a, b, '\\', "\\\\"@);
    let p = text::replaced(a, '\\', "\\\\"@);
    let q = text::replaced(b, '\\', "\\\\"@);
    path::lemma_replaced_concat(p, q, '"', "\\\""@);
    let r = text::replaced(p, '"', "\\\""@);
    let s = text::replaced(q, '"', "\\\""@);
    path::lemma_replaced_concat(r, s, '\n', "\\n"@);
    assert(graph::dot_quoted(a + b) =~= graph::dot_quoted(a).drop_last() + graph::dot_quoted(
        b,
    ).drop_first());
    reveal_with_fuel(text::replaced, 3);
    assert(seq![c].drop_last() =~= Seq::empty());
    assert(seq!['"'].drop_last() =~= Seq::empty());
    assert(seq!['\\'].drop_last() =~= Seq::empty());
    assert(seq!['\n'].drop_last() =~= Seq::empty());
    assert(text::replaced(seq!['\\'], '\\', "\\\\"@) =~= seq!['\\', '\\']);
    assert(seq!['\\', '\\'].drop_last() =~= seq!['\\']);
    assert(text::replaced(seq!['\\', '\\'], '"', "\\\""@) =~= seq!['\\', '\\']);
    assert(text::replaced(seq!['\\', '\\'], '\n', "\\n"@) =~= seq!['\\', '\\']);
    assert(graph::dot_quoted(seq!['\\']) =~= seq!['"', '\\', '\\', '"']);
    assert(text::replaced(seq!['"'], '\\', "\\\\"@) =~= seq!['"']);
    assert(text::replaced(seq!['"'], '"', "\\\""@) =~= seq!['\\', '"']);
    assert(seq!['\\', '"'].drop_last() =~= seq!['\\']);
    assert(text::replaced(seq!['\\', '"'], '\n', "\\n"@) =~= seq!['\\', '"']);
    assert(graph::dot_quoted(seq!['"']) =~= seq!['"', '\\', '"', '"']);
    assert(text::replaced(seq!['\n'], '\\', "\\\\"@) =~= seq!['\n']);
    assert(text::replaced(seq!['\n'], '"', "\\\""@) =~= seq!['\n']);
    assert(text::replaced(seq!['\n'], '\n', "\\n"@) =~= seq!['\\', 'n']);
    assert(graph::dot_quoted(seq!['\n']) =~= seq!['"', '\\', 'n', '"']);
    if c != '"' && c != '\\' && c != '\n' {
        assert(text::replaced(seq![c], '\\', "\\\\"@) =~= seq![c]);
        assert(text::replaced(seq![c], '"', "\\\""@) =~= seq![c]);
        assert(text::replaced(seq![c], '\n', "\\n"@) =~= seq![c]);
        assert(graph::dot_quoted(seq![c]) =~= seq!['"', c, '"']);
    }
}

/// A text in Mermaid's notation: two parts of a text are written one behind the other,
/// ampersands, quotes and bars by their entities, every other character as it is.
pub proof fn law_mermaid_escapes(a: Seq<char>, b: Seq<char>, c: char)
    ensures
        graph::mermaid_escaped(a + b) == graph::mermaid_escaped(a) + graph::mermaid_escaped(b),
        graph::mermaid_escaped(seq!['&']) == "&amp;"@,
        graph::mermaid_escaped(seq!['"']) == "&quot;"@,
        graph::mermaid_escaped(seq!['|']) == "&#124;"@,
        c != '&' && c != '"' && c != '|' ==> graph::mermaid_escaped(seq![c]) == seq![c],
{
    path::lemma_replaced_concat(a, b, '&', "&amp;"@);
    let p = text::replaced(a, '&', "&amp;"@);
    let q = text::replaced(b, '&', "&amp;"@);
    path::lemma_replaced_concat(p, q, '"', "&quot;"@);
    let r = text::replaced(p, '"', "&quot;"@);
    let s = text::replaced(q, '"', "&quot;"@);
    path::lemma_replaced_concat(r, s, '|', "&#124;"@);
    reveal_strlit("&amp;");
    reveal_strlit("&quot;");
    reveal_strlit("&#124;");
    reveal_with_fuel(text::replaced, 2);
    assert(seq![c].drop_last() =~= Seq::empty());
    assert(seq!['&'].drop_last() =~= Seq::empty());
    assert(seq!['"'].drop_last() =~= Seq::empty());
    assert(seq!['|'].drop_last() =~= Seq::empty());
    lemma_left("&amp;"@, '"', "&quot;"@);
    lemma_left("&amp;"@, '|', "&#124;"@);
    lemma_left("&quot;"@, '|', "&#124;"@);
    assert(text::replaced(seq!['&'], '&', "&amp;"@) =~= "&amp;"@);
    assert(text::replaced(seq!['"'], '&', "&amp;"@) =~= seq!['"']);
    assert(text::replaced(seq!['"'], '"', "&quot;"@) =~= "&quot;"@);
    assert(text::replaced(seq!['|'], '&', "&amp;"@) =~= seq!['|']);
    assert(text::replaced(seq!['|'], '"', "&quot;"@) =~= seq!['|']);
    assert(text::replaced(seq!['|'], '|', "&#124;"@) =~= "&#124;"@);
    if c != '&' && c != '"' && c != '|' {
        assert(text::replaced(seq![c], '&', "&amp;"@) =~= seq![c]);
        assert(text::replaced(seq![c], '"', "&quot;"@) =~= seq![c]);
        assert(text::replaced(seq![c], '|', "&#124;"@) =~= seq![c]);
    }
}

/// A text without the character stays as it is.
proof fn lemma_left(t: Seq<char>, from: char, to: Seq<char>)
    requires
        forall|i: int| 0 <= i < t.len() ==> #[trigger] t[i] != from,
    ensures
        text::replaced(t, from, to) == t,
    decreases t.len(),
{
    if t.len() > 0 {
        assert forall|i: int| 0 <= i < t.drop_last().len() implies #[trigger] t.drop_last()[i]
            != from by {
            assert(t.drop_last()[i] == t[i]);
        }
        lemma_left(t.drop_last(), from, to);
        assert(t[t.len() - 1] == t.last());
        assert(t =~= t.drop_last() + seq![t.last()]);
    } else {
        assert(text::replaced(t, from, to) =~= t);
    }
}

/// Only the four directions of a graph are taken; anything else is from left to right.
pub proof fn law_four_directions(d: Seq<char>)
    ensures
        graph::direction("LR"@) == "LR"@,
        graph::direction("RL"@) == "RL"@,
        graph::direction("TB"@) == "TB"@,
        graph::direction("BT"@) == "BT"@,
        d != "RL"@ && d != "TB"@ && d != "BT"@ ==> graph::direction(d) == "LR"@,
{
    reveal_strlit("LR");
    reveal_strlit("RL");
    reveal_strlit("TB");
    reveal_strlit("BT");
}

/// An edge is labelled with the name of the field, and with one pair of brackets for each
/// array between the field and the item.
pub proof fn law_edge_labels_show_arrays(r: DotRelation)
    ensures
        r.relation_kind@ == "object_ref"@ ==> graph::edge_label(r) == r.field_name@,
        r.relation_kind@ == "array_item"@ ==> graph::edge_label(r) == r.field_name@ + "[*]"@,
        r.relation_kind@ == "heterogeneous_array_item"@ ==> graph::edge_label(r) == r.field_name@
            + "[*]"@,
        r.relation_kind@ == "nested_array_item"@ ==> graph::edge_label(r).len()
            == r.field_name@.len() + 3 * r.nested_array_depth,
        r.relation_kind@ == "nested_array_item"@ ==> forall|i: int|
            0 <= i < r.nested_array_depth ==> graph::edge_label(r).subrange(
                r.field_name@.len() + 3 * i,
                r.field_name@.len() + 3 * i + 3,
            ) == #[trigger] stars_at(i),
        graph::edge_label(r).take(r.field_name@.len() as int) == r.field_name@,
{
    reveal_strlit("object_ref");
    reveal_strlit("array_item");
    reveal_strlit("heterogeneous_array_item");
    reveal_strlit("nested_array_item");
    assert("object_ref"@[0] == 'o' && "array_item"@[0] == 'a');
    assert("heterogeneous_array_item"@[0] == 'h' && "nested_array_item"@[0] == 'n');
    let n = r.field_name@;
    if r.relation_kind@ == "nested_array_item"@ {
        lemma_stars(r.nested_array_depth as nat);
        let s = graph::stars(r.nested_array_depth as nat);
        assert("nested_array_item"@.len() == 17 && "array_item"@.len() == 10);
        assert("heterogeneous_array_item"@.len() == 24);
        assert(graph::edge_label(r) == n + s);
        assert forall|i: int| 0 <= i < r.nested_array_depth implies graph::edge_label(r).subrange(
            n.len() + 3 * i,
            n.len() + 3 * i + 3,
        ) == #[trigger] stars_at(i) by {
            assert(s.subrange(3 * i, 3 * i + 3) == stars_at(i));
            assert((n + s).subrange(n.len() + 3 * i, n.len() + 3 * i + 3) =~= s.subrange(
                3 * i,
                3 * i + 3,
            ));
        }
    }
    assert(graph::edge_label(r).take(n.len() as int) =~= n);
}

/// What stands for each array.
pub open spec fn stars_at(i: int) -> Seq<char> {
    "[*]"@
}

proof fn lemma_stars(n: nat)
    ensures
        graph::stars(n).len() == 3 * n,
        forall|i: int|
            0 <= i < n ==> graph::stars(n).subrange(3 * i, 3 * i + 3) == #[trigger] stars_at(i),
    decreases n,
{
    reveal_strlit("[*]");
    if n > 0 {
        let s = graph::stars((n - 1) as nat);
        lemma_stars((n - 1) as nat);
        assert forall|i: int| 0 <= i < n implies graph::stars(n).subrange(3 * i, 3 * i + 3)
            == #[trigger] stars_at(i) by {
            if i < n - 1 {
                assert(s.subrange(3 * i, 3 * i + 3) == stars_at(i));
                assert(graph::stars(n).subrange(3 * i, 3 * i + 3) =~= s.subrange(3 * i, 3 * i + 3));
            } else {
                assert(graph::stars(n).subrange(3 * i, 3 * i + 3) =~= "[*]"@);
            }
        }
    }
}

/// A graph without nodes and relations in Graphviz's notation.
pub proof fn law_dot_graph_of_nothing(d: Seq<char>)
    ensures
        graph::dot_graph(Seq::empty(), Seq::empty(), d) == "digraph schema_fk {\n  rankdir="@
            + graph::direction(d) + ";\n  node [shape=box];\n\n"@ + "}\n"@,
{
    assert(graph::dot_graph(Seq::empty(), Seq::empty(), d) =~= "digraph schema_fk {\n  rankdir="@
        + graph::direction(d) + ";\n  node [shape=box];\n\n"@ + "}\n"@);
}

/// One more relation puts one more line at the end of a graph, ahead of the closing bracket.
pub proof fn law_dot_edges(
    nodes: Seq<DotNode>,
    relations: Seq<DotRelation>,
    d: Seq<char>,
    r: DotRelation,
)
    ensures
        ({
            let before = graph::dot_graph(nodes, relations, d);
            let front = before.take(before.len() - 2);
            &&& before.len() >= 2
            &&& before == front + "}\n"@
            &&& graph::dot_graph(nodes, relations.push(r), d) == front + graph::dot_edge(r)
                + "}\n"@
        }),
{
    reveal_strlit("}\n");
    let more = relations.push(r);
    assert(more.drop_last() =~= relations);
    assert(more.last() == r);
    let before = graph::dot_graph(nodes, relations, d);
    let front = before.take(before.len() - 2);
    assert(before =~= front + "}\n"@);
    let line = graph::dot_edge(r);
    assert(graph::dot_edges(more) == graph::dot_edges(relations) + line);
    assert(graph::dot_graph(nodes, more, d) =~= front + line + "}\n"@);
}

/// The line of a relation leads from the schema that it starts at to the schema that it ends
/// at, both in quotes. Its properties stand behind, in brackets.
pub proof fn law_dot_edges_lead_from_start_to_end(r: DotRelation)
    ensures
        graph::dot_edge(r) == "  "@ + graph::dot_quoted(r.from_schema_path@) + " -> "@
            + graph::dot_quoted(r.to_schema_path@) + " ["@ + text::joined(
            graph::dot_attributes(r),
            ", "@,
        ) + "];\n"@,
{
}

/// The properties of a relation, each by its name. A relation that is no candidate for a
/// foreign key is dashed.
pub proof fn law_dot_edges_tell_every_property(r: DotRelation)
    ensures
        ({
            let a = graph::dot_attributes(r);
            let optional = (if r.via_schema_path is Some {
                1int
            } else {
                0
            }) + (if r.via_array_path is Some {
                1int
            } else {
                0
            }) + (if r.fk_candidate {
                0int
            } else {
                1
            });
            &&& a.len() == 12 + optional
            &&& a[0] == "label="@ + graph::dot_quoted(graph::edge_label(r))
            &&& a[1] == "relation_kind="@ + graph::dot_quoted(r.relation_kind@)
            &&& a[2] == "fk_owner="@ + graph::dot_quoted(r.fk_owner@)
            &&& a[3] == "fk_candidate="@ + graph::dot_quoted(
                if r.fk_candidate {
                    "true"@
                } else {
                    "false"@
                },
            )
            &&& a[4] == "field_name="@ + graph::dot_quoted(r.field_name@)
            &&& a[5] == "cardinality="@ + graph::dot_quoted(r.cardinality@)
            &&& a[6] == "required="@ + graph::dot_quoted(
                if r.required {
                    "true"@
                } else {
                    "false"@
                },
            )
            &&& a[7] == "mixed="@ + graph::dot_quoted(
                if r.mixed {
                    "true"@
                } else {
                    "false"@
                },
            )
            &&& a[8] == "nested_array_depth="@ + graph::dot_quoted(
                text::decimal(r.nested_array_depth as nat),
            )
            &&& a[9] == "parent_object_count="@ + graph::dot_quoted(
                text::signed_decimal(r.parent_object_count as int),
            )
            &&& a[10] == "child_object_count="@ + graph::dot_quoted(
                text::signed_decimal(r.child_object_count as int),
            )
            &&& a[11] == "field_count="@ + graph::dot_quoted(
                text::signed_decimal(r.field_count as int),
            )
            &&& r.via_schema_path matches Some(p) ==> a[12] == "via_schema_path="@
                + graph::dot_quoted(p@)
            &&& r.via_array_path matches Some(p) ==> a[if r.via_schema_path is Some {
                13int
            } else {
                12
            }] == "via_array_path="@ + graph::dot_quoted(p@)
            &&& !r.fk_candidate ==> a.last() == "style="@ + graph::dot_quoted("dashed"@)
        }),
{
    lemma_attributes();
    let a = graph::dot_attributes(r);
    assert(a[0] == graph::attribute("label"@, graph::edge_label(r)));
    assert(a[11] == graph::attribute("field_count"@, text::signed_decimal(r.field_count as int)));
    if !r.fk_candidate {
        assert(a.last() == graph::attribute("style"@, "dashed"@));
    }
}

proof fn lemma_attributes()
    ensures
        "label"@ + "="@ == "label="@,
        "relation_kind"@ + "="@ == "relation_kind="@,
        "fk_owner"@ + "="@ == "fk_owner="@,
        "fk_candidate"@ + "="@ == "fk_candidate="@,
        "field_name"@ + "="@ == "field_name="@,
        "cardinality"@ + "="@ == "cardinality="@,
        "required"@ + "="@ == "required="@,
        "mixed"@ + "="@ == "mixed="@,
        "nested_array_depth"@ + "="@ == "nested_array_depth="@,
        "parent_object_count"@ + "="@ == "parent_object_count="@,
        "child_object_count"@ + "="@ == "child_object_count="@,
        "field_count"@ + "="@ == "field_count="@,
        "via_schema_path"@ + "="@ == "via_schema_path="@,
        "via_array_path"@ + "="@ == "via_array_path="@,
        "style"@ + "="@ == "style="@,
{
    reveal_strlit("=");
    reveal_strlit("label");
    reveal_strlit("label=");
    assert("label"@ + "="@ =~= "label="@);
    reveal_strlit("relation_kind");
    reveal_strlit("relation_kind=");
    assert("relation_kind"@ + "="@ =~= "relation_kind="@);
    reveal_strlit("fk_owner");
    reveal_strlit("fk_owner=");
    assert("fk_owner"@ + "="@ =~= "fk_owner="@);
    reveal_strlit("fk_candidate");
    reveal_strlit("fk_candidate=");
    assert("fk_candidate"@ + "="@ =~= "fk_candidate="@);
    reveal_strlit("field_name");
    reveal_strlit("field_name=");
    assert("field_name"@ + "="@ =~= "field_name="@);
    reveal_strlit("cardinality");
    reveal_strlit("cardinality=");
    assert("cardinality"@ + "="@ =~= "cardinality="@);
    reveal_strlit("required");
    reveal_strlit("required=");
    assert("required"@ + "="@ =~= "required="@);
    reveal_strlit("mixed");
    reveal_strlit("mixed=");
    assert("mixed"@ + "="@ =~= "mixed="@);
    reveal_strlit("nested_array_depth");
    reveal_strlit("nested_array_depth=");
    assert("nested_array_depth"@ + "="@ =~= "nested_array_depth="@);
    reveal_strlit("parent_object_count");
    reveal_strlit("parent_object_count=");
    assert("parent_object_count"@ + "="@ =~= "parent_object_count="@);
    reveal_strlit("child_object_count");
    reveal_strlit("child_object_count=");
    assert("child_object_count"@ + "="@ =~= "child_object_count="@);
    reveal_strlit("field_count");
    reveal_strlit("field_count=");
    assert("field_count"@ + "="@ =~= "field_count="@);
    reveal_strlit("via_schema_path");
    reveal_strlit("via_schema_path=");
    assert("via_schema_path"@ + "="@ =~= "via_schema_path="@);
    reveal_strlit("via_array_path");
    reveal_strlit("via_array_path=");
    assert("via_array_path"@ + "="@ =~= "via_array_path="@);
    reveal_strlit("style");
    reveal_strlit("style=");
    assert("style"@ + "="@ =~= "style="@);
}

/// The lines of the first relations stay when others follow: each relation has its line, at the
/// place where the text of the relations ahead of it ends.
pub proof fn law_every_relation_has_its_dot_line(
    nodes: Seq<DotNode>,
    relations: Seq<DotRelation>,
    d: Seq<char>,
    i: int,
)
    requires
        0 <= i < relations.len(),
    ensures
        ({
            let before = graph::dot_graph(nodes, relations.take(i), d);
            text::has_prefix(
                graph::dot_graph(nodes, relations, d),
                before.take(before.len() - 2) + graph::dot_edge(relations[i]),
            )
        }),
{
    lemma_dot_line(nodes, relations, d, i);
}

proof fn lemma_dot_line(
    nodes: Seq<DotNode>,
    relations: Seq<DotRelation>,
    d: Seq<char>,
    i: int,
)
    requires
        0 <= i < relations.len(),
    ensures
        ({
            let before = graph::dot_graph(nodes, relations.take(i), d);
            let start = before.take(before.len() - 2) + graph::dot_edge(relations[i]);
            let whole = graph::dot_graph(nodes, relations, d);
            start.len() <= whole.len() - 2 && whole.take(start.len() as int) == start
        }),
    decreases relations.len(),
{
    reveal_strlit("}\n");
    let n = relations.len() - 1;
    let less = relations.drop_last();
    let before = graph::dot_graph(nodes, relations.take(i), d);
    let start = before.take(before.len() - 2) + graph::dot_edge(relations[i]);
    law_dot_edges(nodes, less, d, relations[n]);
    assert(less.push(relations[n]) =~= relations);
    let whole = graph::dot_graph(nodes, relations, d);
    let shorter = graph::dot_graph(nodes, less, d);
    if i == n {
        assert(relations.take(i) =~= less);
        assert(whole.take(start.len() as int) =~= start);
    } else {
        lemma_dot_line(nodes, less, d, i);
        assert(less.take(i) =~= relations.take(i));
        assert(less[i] == relations[i]);
        assert(whole.take(start.len() as int) =~= shorter.take(start.len() as int));
    }
}

/// One more node puts one more line behind the lines of the nodes ahead of it. The line gives
/// its path, its kind and its object count.
pub proof fn law_dot_nodes(nodes: Seq<DotNode>, node: DotNode, d: Seq<char>)
    ensures
        ({
            let count = text::signed_decimal(node.object_count as int);
            let before = graph::dot_graph(nodes, Seq::empty(), d);
            let end = if nodes.len() > 0 {
                3int
            } else {
                2
            };
            graph::dot_graph(nodes.push(node), Seq::empty(), d) == before.take(before.len() - end)
                + "  "@ + graph::dot_quoted(node.schema_path@) + " [label="@ + graph::dot_quoted(
                node.schema_path@ + "\nkind="@ + node.schema_kind@ + "\nobject_count="@ + count,
            ) + ", schema_kind="@ + graph::dot_quoted(node.schema_kind@) + ", object_count="@
                + graph::dot_quoted(count) + "];\n"@ + "\n"@ + "}\n"@
        }),
{
    reveal_strlit("}\n");
    reveal_strlit("\n");
    let more = nodes.push(node);
    assert(more.drop_last() =~= nodes);
    assert(more.last() == node);
    let before = graph::dot_graph(nodes, Seq::empty(), d);
    let end = if nodes.len() > 0 {
        3int
    } else {
        2
    };
    let count = text::signed_decimal(node.object_count as int);
    let line = "  "@ + graph::dot_quoted(node.schema_path@) + " [label="@ + graph::dot_quoted(
        node.schema_path@ + "\nkind="@ + node.schema_kind@ + "\nobject_count="@ + count,
    ) + ", schema_kind="@ + graph::dot_quoted(node.schema_kind@) + ", object_count="@
        + graph::dot_quoted(count) + "];\n"@;
    assert(graph::dot_nodes(more) == graph::dot_nodes(nodes) + line);
    let head = "digraph schema_fk {\n  rankdir="@ + graph::direction(d)
        + ";\n  node [shape=box];\n\n"@;
    assert(before.take(before.len() - end) =~= head + graph::dot_nodes(nodes));
    assert(graph::dot_graph(more, Seq::empty(), d) =~= head + graph::dot_nodes(nodes) + line
        + "\n"@ + "}\n"@);
    assert(graph::dot_graph(more, Seq::empty(), d) =~= before.take(before.len() - end) + "  "@
        + graph::dot_quoted(node.schema_path@) + " [label="@ + graph::dot_quoted(
        node.schema_path@ + "\nkind="@ + node.schema_kind@ + "\nobject_count="@ + count,
    ) + ", schema_kind="@ + graph::dot_quoted(node.schema_kind@) + ", object_count="@
        + graph::dot_quoted(count) + "];\n"@ + "\n"@ + "}\n"@);
}

/// The number by which a node is named is the place of the last node with its path.
pub proof fn law_nodes_are_numbered_by_place(nodes: Seq<DotNode>, p: Seq<char>)
    ensures
        match graph::node_index(nodes, p) {
            Some(i) => i < nodes.len() && nodes[i as int].schema_path@ == p && forall|j: int|
                i < j < nodes.len() ==> (#[trigger] nodes[j]).schema_path@ != p,
            None => forall|j: int| 0 <= j < nodes.len() ==> (#[trigger] nodes[j]).schema_path@ != p,
        },
    decreases nodes.len(),
{
    if nodes.len() > 0 {
        law_nodes_are_numbered_by_place(nodes.drop_last(), p);
        assert forall|j: int| 0 <= j < nodes.len() - 1 implies nodes.drop_last()[j] == #[trigger]
            nodes[j] by {}
    }
}

/// A graph without relations in Mermaid's notation has one line for each node, by its place,
/// with its path, kind and object count, and an empty line if there are nodes.
pub proof fn law_mermaid_nodes(nodes: Seq<DotNode>, node: DotNode, d: Seq<char>)
    ensures
        graph::mermaid_graph(Seq::empty(), Seq::empty(), d, false) == "flowchart "@
            + graph::direction(d) + "\n"@,
        ({
            let before = graph::mermaid_graph(nodes, Seq::empty(), d, false);
            let end = if nodes.len() > 0 {
                1int
            } else {
                0
            };
            graph::mermaid_graph(nodes.push(node), Seq::empty(), d, false) == before.take(
                before.len() - end,
            ) + "  n"@ + text::decimal(nodes.len()) + "[\""@ + graph::mermaid_escaped(
                node.schema_path@ + "<br/>kind="@ + node.schema_kind@ + "<br/>object_count="@
                    + text::signed_decimal(node.object_count as int),
            ) + "\"]\n"@ + "\n"@
        }),
{
    reveal_strlit("\n");
    reveal_strlit("  ");
    reveal_strlit("n");
    reveal_strlit("  n");
    assert("  "@ + "n"@ =~= "  n"@);
    let none = Seq::<DotRelation>::empty();
    assert(graph::mermaid_graph(Seq::empty(), none, d, false) =~= "flowchart "@ + graph::direction(
        d,
    ) + "\n"@);
    let more = nodes.push(node);
    assert(more.drop_last() =~= nodes);
    assert(more.last() == node);
    let before = graph::mermaid_graph(nodes, none, d, false);
    let end = if nodes.len() > 0 {
        1int
    } else {
        0
    };
    let label = graph::mermaid_escaped(
        node.schema_path@ + "<br/>kind="@ + node.schema_kind@ + "<br/>object_count="@
            + text::signed_decimal(node.object_count as int),
    );
    let line = "  "@ + ("n"@ + text::decimal(nodes.len())) + "[\""@ + label + "\"]\n"@;
    assert(graph::mermaid_nodes(more) == graph::mermaid_nodes(nodes) + line);
    let head = "flowchart "@ + graph::direction(d) + "\n"@;
    assert(before.take(before.len() - end) =~= head + graph::mermaid_nodes(nodes));
    assert(graph::mermaid_graph(more, none, d, false) =~= before.take(before.len() - end) + line
        + "\n"@);
    assert(line =~= "  n"@ + text::decimal(nodes.len()) + "[\""@ + label + "\"]\n"@);
    assert(graph::mermaid_graph(more, none, d, false) =~= before.take(before.len() - end) + "  n"@
        + text::decimal(nodes.len()) + "[\""@ + label + "\"]\n"@ + "\n"@);
}

/// One more relation puts one more line at the end of a graph. The line leads from the node of
/// the schema that the relation starts at to that of the schema that it ends at, drawn through
/// for candidates of foreign keys and dotted for others; a relation with an end that is no
/// node has no line.
pub proof fn law_mermaid_edges(
    nodes: Seq<DotNode>,
    relations: Seq<DotRelation>,
    d: Seq<char>,
    r: DotRelation,
)
    ensures
        ({
            let before = graph::mermaid_graph(nodes, relations, d, false);
            let after = graph::mermaid_graph(nodes, relations.push(r), d, false);
            let label = graph::mermaid_escaped(text::joined(graph::edge_parts(r), "<br/>"@));
            match (
                graph::node_index(nodes, r.from_schema_path@),
                graph::node_index(nodes, r.to_schema_path@),
            ) {
                (Some(a), Some(b)) => after == before + "  n"@ + text::decimal(a) + (
                if r.fk_candidate {
                    " -->|\""@ + label + "\"| n"@
                } else {
                    " -. \""@ + label + "\" .-> n"@
                }) + text::decimal(b) + "\n"@,
                _ => after == before,
            }
        }),
        ({
            let parts = graph::edge_parts(r);
            &&& parts[0] == graph::edge_label(r)
            &&& parts[1] == r.relation_kind@
            &&& parts[2] == r.cardinality@
            &&& r.required ==> parts[3] == "required"@
            &&& !r.required ==> parts[3] == "optional"@
            &&& r.mixed ==> parts[4] == "mixed"@
            &&& r.nested_array_depth >= 2 ==> parts.last() == "depth="@ + text::decimal(
                r.nested_array_depth as nat,
            )
            &&& parts.len() == 4 + (if r.mixed {
                1int
            } else {
                0
            }) + (if r.nested_array_depth >= 2 {
                1int
            } else {
                0
            })
        }),
{
    reveal_strlit("  ");
    reveal_strlit("n");
    reveal_strlit("  n");
    reveal_strlit("\"| ");
    reveal_strlit("\"| n");
    reveal_strlit("\" .-> ");
    reveal_strlit("\" .-> n");
    assert("  "@ + "n"@ =~= "  n"@);
    assert("\"| "@ + "n"@ =~= "\"| n"@);
    assert("\" .-> "@ + "n"@ =~= "\" .-> n"@);
    let more = relations.push(r);
    assert(more.drop_last() =~= relations);
    assert(more.last() == r);
    let before = graph::mermaid_graph(nodes, relations, d, false);
    let after = graph::mermaid_graph(nodes, more, d, false);
    let line = graph::mermaid_edge(nodes, r);
    assert(after =~= before + line);
    let label = graph::mermaid_escaped(text::joined(graph::edge_parts(r), "<br/>"@));
    match (
        graph::node_index(nodes, r.from_schema_path@),
        graph::node_index(nodes, r.to_schema_path@),
    ) {
        (Some(a), Some(b)) => {
            if r.fk_candidate {
                assert(after =~= before + "  n"@ + text::decimal(a) + (" -->|\""@ + label
                    + "\"| n"@) + text::decimal(b) + "\n"@);
            } else {
                assert(after =~= before + "  n"@ + text::decimal(a) + (" -. \""@ + label
                    + "\" .-> n"@) + text::decimal(b) + "\n"@);
            }
        },
        _ => {
            assert(after =~= before);
        },
    }
}

/// A graph in Markdown is the graph in a fence.
pub proof fn law_formats(nodes: Seq<DotNode>, relations: Seq<DotRelation>, d: Seq<char>)
    ensures
        graph::graph_text(nodes, relations, d, GraphFormat::MermaidMd) == "```mermaid\n"@
            + graph::graph_text(nodes, relations, d, GraphFormat::Mermaid) + "```\n"@,
        text::has_prefix(
            graph::graph_text(nodes, relations, d, GraphFormat::Mermaid),
            "flowchart "@,
        ),
        text::has_prefix(
            graph::graph_text(nodes, relations, d, GraphFormat::Dot),
            "digraph schema_fk {\n"@,
        ),
        graph::graph_text(nodes, relations, d, GraphFormat::Dot) == graph::dot_graph(
            nodes,
            relations,
            d,
        ),
        graph::graph_text(nodes, relations, d, GraphFormat::Mermaid) == graph::mermaid_graph(
            nodes,
            relations,
            d,
            false,
        ),
{
    let plain = graph::graph_text(nodes, relations, d, GraphFormat::Mermaid);
    assert(graph::graph_text(nodes, relations, d, GraphFormat::MermaidMd) =~= "```mermaid\n"@
        + plain + "```\n"@);
    reveal_strlit("flowchart ");
    assert(plain.take("flowchart "@.len() as int) =~= "flowchart "@);
    reveal_strlit("digraph schema_fk {\n");
    reveal_strlit("digraph schema_fk {\n  rankdir=");
    let dot = graph::graph_text(nodes, relations, d, GraphFormat::Dot);
    assert(dot.take("digraph schema_fk {\n"@.len() as int) =~= "digraph schema_fk {\n"@);
}

/// A graph goes nowhere unless it was asked for; to the file that was named for it; else under
/// the name of its format into the directory of the index that it is read from; else into the
/// output directory.
pub proof fn law_graph_places(
    output: Option<Seq<char>>,
    outdir: Seq<char>,
    parent: Seq<char>,
    index: Option<Seq<char>>,
    name: Seq<char>,
    format: GraphFormat,
)
    requires
        name.len() > 0,
        name.last() != '/',
        name.last() != '.',
        name != "__default_graph_path__"@,
    ensures
        graph::graph_place(false, output, outdir, index, format) is None,
        graph::graph_place(true, Some(name), outdir, index, format) == Some(GraphPlace::File(name)),
        graph::graph_place(true, None, outdir, Some(parent), GraphFormat::Dot) == Some(
            GraphPlace::Directory(parent, "schema.dot"@),
        ),
        graph::graph_place(true, None, outdir, Some(parent), GraphFormat::Mermaid) == Some(
            GraphPlace::Directory(parent, "schema.mmd"@),
        ),
        graph::graph_place(true, None, outdir, Some(parent), GraphFormat::MermaidMd) == Some(
            GraphPlace::Directory(parent, "schema.md"@),
        ),
        graph::graph_place(true, None, outdir, None, GraphFormat::Dot) == Some(
            GraphPlace::Directory(outdir, "schema.dot"@),
        ),
        graph::graph_place(true, None, outdir, None, GraphFormat::Mermaid) == Some(
            GraphPlace::Directory(outdir, "schema.mmd"@),
        ),
        graph::graph_place(true, None, outdir, None, GraphFormat::MermaidMd) == Some(
            GraphPlace::Directory(outdir, "schema.md"@),
        ),
        graph::graph_place(true, Some("__default_graph_path__"@), outdir, index, format)
            == graph::graph_place(true, None, outdir, index, format),
        output is Some && graph::without_path_end(output->0) != "__default_graph_path__"@
            ==> graph::graph_place(true, output, outdir, index, format) == Some(
            GraphPlace::File(output->0),
        ),
        output is Some && graph::without_path_end(output->0) == "__default_graph_path__"@
            ==> graph::graph_place(true, output, outdir, index, format) == graph::graph_place(
            true,
            None,
            outdir,
            index,
            format,
        ),
{
    reveal_strlit("__default_graph_path__");
    assert("__default_graph_path__"@.last() == '_');
    assert(graph::without_path_end("__default_graph_path__"@) == "__default_graph_path__"@);
    assert(graph::without_path_end(name) == name);
}

/// Separators at the end of a path do not count.
pub proof fn law_path_ends_do_not_count(t: Seq<char>)
    requires
        t.len() > 0,
    ensures
        graph::without_path_end(t.push('/')) == graph::without_path_end(t),
        t.last() != '/' && t.last() != '.' ==> graph::without_path_end(t) == t,
        t.last() == '/' && t.len() > 1 ==> graph::without_path_end(t.push('.'))
            == graph::without_path_end(t),
        t.last() == '.' && (t.len() < 3 || t[t.len() - 2] != '/') ==> graph::without_path_end(t)
            == t,
        t.len() == 1 ==> graph::without_path_end(t) == t,
{
    assert(t.push('/').drop_last() =~= t);
    let u = t.push('.');
    assert(u.drop_last() =~= t);
}

/// Of two relations in a graph, the first comes ahead: candidates for foreign keys ahead of
/// others, then by kind, by the schema they start at, by the schema they end at, by field.
pub open spec fn comes_ahead(a: DotRelation, b: DotRelation) -> bool {
    ||| a.fk_candidate && !b.fk_candidate
    ||| {
        &&& a.fk_candidate == b.fk_candidate
        &&& {
            ||| a.relation_kind@.before(b.relation_kind@)
            ||| {
                &&& a.relation_kind@ == b.relation_kind@
                &&& {
                    ||| a.from_schema_path@.before(b.from_schema_path@)
                    ||| {
                        &&& a.from_schema_path@ == b.from_schema_path@
                        &&& {
                            ||| a.to_schema_path@.before(b.to_schema_path@)
                            ||| {
                                &&& a.to_schema_path@ == b.to_schema_path@
                                &&& a.field_name@.before(b.field_name@) || a.field_name@
                                    == b.field_name@
                            }
                        }
                    }
                }
            }
        }
    }
}

/// A graph shows the relation: all are shown, or it is a candidate for a foreign key.
pub open spec fn is_shown(all: bool) -> spec_fn(DotRelation) -> bool {
    |r: DotRelation| all || r.fk_candidate
}

proof fn lemma_shown(relations: Seq<DotRelation>, all: bool)
    ensures
        graph::shown(relations, all) == relations.filter(is_shown(all)),
    decreases relations.len(),
{
    reveal(Seq::filter);
    if relations.len() > 0 {
        lemma_shown(relations.drop_last(), all);
    }
}

/// A graph shows all relations, or those that are candidates for foreign keys: as many as there
/// are, each of them, and no other, in their order.
pub proof fn law_graphs_show_relations(relations: Seq<DotRelation>, all: bool, r: DotRelation)
    ensures
        graph::graph_relations(relations, all).len() == relations.filter(is_shown(all)).len(),
        graph::graph_relations(relations, all).contains(r) <==> relations.contains(r) && (all
            || r.fk_candidate),
        forall|i: int, j: int|
            0 <= i < j < graph::graph_relations(relations, all).len() ==> comes_ahead(
                #[trigger] graph::graph_relations(relations, all)[i],
                #[trigger] graph::graph_relations(relations, all)[j],
            ),
{
    let kept = graph::shown(relations, all);
    let keys = Seq::new(kept.len(), |i: int| graph::relation_key(kept[i]));
    let ranks = order::ranked(keys);
    let numbered = Seq::new(keys.len(), |i: int| (keys[i], i as nat));
    let sorted = graph::graph_relations(relations, all);
    lemma_shown(relations, all);
    order::lemma_ranked(keys);
    order::lemma_sorted_set(numbered);
    lemma_ranks_number(numbered);
    assert(numbered.no_duplicates());
    assert(sorted.contains(r) <==> kept.contains(r)) by {
        if sorted.contains(r) {
            let k = choose|k: int| 0 <= k < sorted.len() && sorted[k] == r;
            assert(ranks[k].1 < keys.len());
            assert(kept[ranks[k].1 as int] == r);
        }
        if kept.contains(r) {
            let k = choose|k: int| 0 <= k < kept.len() && kept[k] == r;
            assert(numbered[k] == (keys[k], k as nat));
            assert(numbered.contains(numbered[k]));
            assert(ranks.contains(numbered[k]));
            let m = choose|m: int| 0 <= m < ranks.len() && ranks[m] == numbered[k];
            assert(sorted[m] == r);
        }
    }
    lemma_filter_contains(relations, all, r);
    assert forall|i: int, j: int| 0 <= i < j < sorted.len() implies comes_ahead(
        #[trigger] sorted[i],
        #[trigger] sorted[j],
    ) by {
        assert(ranks[i].before(ranks[j]));
        assert(ranks[i].0 == keys[ranks[i].1 as int]);
        assert(ranks[j].0 == keys[ranks[j].1 as int]);
    }
}

proof fn lemma_filter_contains(relations: Seq<DotRelation>, all: bool, r: DotRelation)
    ensures
        graph::shown(relations, all).contains(r) <==> relations.contains(r) && (all
            || r.fk_candidate),
    decreases relations.len(),
{
    if relations.len() > 0 {
        let d = relations.drop_last();
        let last = relations[relations.len() - 1];
        lemma_filter_contains(d, all, r);
        let less = graph::shown(d, all);
        assert(relations =~= d + seq![last]);
        crate::same_records::lemma_concat_contains(d, seq![last], r);
        crate::same_records::lemma_concat_contains(less, seq![last], r);
        assert(less.push(last) =~= less + seq![last]);
        assert(seq![last].contains(r) <==> r == last) by {
            assert(seq![last][0] == last);
        }
    }
}

/// A sorted sequence of different elements has as many.
proof fn lemma_ranks_number<K: Ordered>(s: Seq<K>)
    requires
        s.no_duplicates(),
    ensures
        order::sorted_set(s).len() == s.len(),
{
    let t = order::sorted_set(s);
    order::lemma_sorted_set(s);
    assert(t.no_duplicates()) by {
        assert forall|i: int, j: int| 0 <= i < t.len() && 0 <= j < t.len() && i != j implies t[i]
            != t[j] by {
            if i < j {
                order::lemma_before_excludes(t[i], t[j]);
            } else {
                order::lemma_before_excludes(t[j], t[i]);
            }
        }
    }
    s.unique_seq_to_set();
    t.unique_seq_to_set();
    assert(s.to_set() =~= t.to_set()) by {
        assert forall|x: K| s.to_set().contains(x) == t.to_set().contains(x) by {
            assert(t.contains(x) <==> s.contains(x));
        }
    }
}

/// The schema is at one end of some relation.
pub open spec fn at_an_end(relations: Seq<DotRelation>, p: Seq<char>) -> bool {
    exists|i: int|
        0 <= i < relations.len() && ((#[trigger] relations[i]).from_schema_path@ == p
            || relations[i].to_schema_path@ == p)
}

proof fn lemma_ends(t: IndexTables, relations: Seq<DotRelation>, n: int, k: (nat, Seq<char>))
    requires
        t.wf(),
        0 <= n <= t.definitions.entries@.len(),
    ensures
        graph::end_list(t, relations, n).contains(k) <==> k.0 == report::rank(
            report_laws::objects_in(t, k.1),
        ) && at_an_end(relations, k.1) && exists|j: int|
            0 <= j < n && (#[trigger] t.definitions.entries@[j]).0@ == k.1,
    decreases n,
{
    if n > 0 {
        let p = t.definitions.entries@[n - 1].0@;
        let less = graph::end_list(t, relations, n - 1);
        lemma_ends(t, relations, n - 1, k);
        assert(t.count_of(p) == report_laws::objects_in(t, p));
        assert(graph::is_end(relations, p) == at_an_end(relations, p));
        let new = (report::rank(t.count_of(p)), p);
        let more = less.push(new);
        assert(more[less.len() as int] == new);
        if less.contains(k) {
            let i = choose|i: int| 0 <= i < less.len() && less[i] == k;
            assert(more[i] == k);
        }
        if more.contains(k) && k != new {
            let i = choose|i: int| 0 <= i < more.len() && more[i] == k;
            assert(less[i] == k);
        }
    }
}

/// A graph has one node for each schema of the index that is at an end of one of its relations,
/// and no other, with its kind and its object count. Those with the most objects stand first,
/// those with as many by their paths.
pub proof fn law_graphs_show_schemas(
    t: IndexTables,
    relations: Seq<DotRelation>,
    nodes: Seq<DotNode>,
)
    requires
        t.wf(),
        graph::graph_nodes(t, relations, nodes),
    ensures
        forall|i: int|
            0 <= i < nodes.len() ==> {
                let p = (#[trigger] nodes[i]).schema_path@;
                &&& t.definitions.map().contains_key(p)
                &&& at_an_end(relations, p)
                &&& nodes[i].schema_kind@ == t.definitions.map()[p]@
                &&& nodes[i].object_count == report_laws::objects_in(t, p)
            },
        forall|p: Seq<char>| #[trigger]
            t.definitions.map().contains_key(p) && at_an_end(relations, p) ==> exists|i: int|
                0 <= i < nodes.len() && (#[trigger] nodes[i]).schema_path@ == p,
        forall|i: int, j: int|
            0 <= i < j < nodes.len() ==> report_laws::ahead(
                t,
                (#[trigger] nodes[i]).schema_path@,
                (#[trigger] nodes[j]).schema_path@,
            ),
{
    let n = t.definitions.entries@.len() as int;
    let list = graph::end_list(t, relations, n);
    let rows = graph::node_order(t, relations);
    order::lemma_sorted_set(list);
    assert forall|i: int| 0 <= i < nodes.len() implies {
        let p = (#[trigger] nodes[i]).schema_path@;
        &&& t.definitions.map().contains_key(p)
        &&& at_an_end(relations, p)
        &&& nodes[i].schema_kind@ == t.definitions.map()[p]@
        &&& nodes[i].object_count == report_laws::objects_in(t, p)
    } by {
        assert(rows.contains(rows[i]));
        lemma_ends(t, relations, n, rows[i]);
        let j = choose|j: int|
            0 <= j < n && (#[trigger] t.definitions.entries@[j]).0@ == rows[i].1;
        t.definitions.lemma_entry(j);
    }
    assert forall|p: Seq<char>| #[trigger]
        t.definitions.map().contains_key(p) && at_an_end(relations, p) implies exists|i: int|
        0 <= i < nodes.len() && (#[trigger] nodes[i]).schema_path@ == p by {
        let j = t.definitions.keys().index_of(p);
        assert(t.definitions.keys().contains(p));
        assert(t.definitions.entries@[j].0@ == p);
        let k = (report::rank(report_laws::objects_in(t, p)), p);
        lemma_ends(t, relations, n, k);
        assert(rows.contains(k));
        let i = choose|i: int| 0 <= i < rows.len() && rows[i] == k;
        assert(nodes[i].schema_path@ == p);
    }
    assert forall|i: int, j: int| 0 <= i < j < nodes.len() implies report_laws::ahead(
        t,
        (#[trigger] nodes[i]).schema_path@,
        (#[trigger] nodes[j]).schema_path@,
    ) by {
        assert(rows.contains(rows[i]) && rows.contains(rows[j]));
        lemma_ends(t, relations, n, rows[i]);
        lemma_ends(t, relations, n, rows[j]);
        assert(rows[i].before(rows[j]));
        report_laws::lemma_ahead(t, rows[i].1, rows[j].1);
        assert(t.count_of(rows[i].1) == report_laws::objects_in(t, rows[i].1));
        assert(t.count_of(rows[j].1) == report_laws::objects_in(t, rows[j].1));
    }
}

} // verus!
