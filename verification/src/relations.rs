//! Relations between schemas, read off the labels of their fields.

use crate::index;
use crate::index::{definitions_of, is_refs_mut_schema};
use crate::json;
use crate::order;
use crate::ordmap;
use crate::ordmap::{group_by, push_under, Key, OrdMap};
use crate::records;
use crate::records::{Rec, Record};
use crate::statistics;
use crate::statistics::Statistics;
use crate::text;
use crate::text::{chars_of, ends_with, ends_with_char, same_text, sorted_vec, starts_with, trim, trim_end_char};
use crate::walk::copy_texts;
use vstd::prelude::*;

verus! {

/// A label read up to some place: the finished parts of the union, the part being read, and
/// how many brackets are open.
pub ghost struct Split {
    pub parts: Seq<Seq<char>>,
    pub current: Seq<char>,
    pub depth: nat,
}

pub open spec fn split_state(label: Seq<char>) -> Split
    decreases label.len(),
{
    if label.len() == 0 {
        Split { parts: Seq::empty(), current: Seq::empty(), depth: 0 }
    } else {
        let s = split_state(label.drop_last());
        let c = label.last();
        if c == '(' {
            Split { current: s.current.push(c), depth: s.depth + 1, ..s }
        } else if c == ')' {
            Split {
                current: s.current.push(c),
                depth: if s.depth > 0 {
                    (s.depth - 1) as nat
                } else {
                    0
                },
                ..s
            }
        } else if c == '|' && s.depth == 0 {
            Split { parts: s.parts.push(s.current), current: Seq::empty(), ..s }
        } else {
            Split { current: s.current.push(c), ..s }
        }
    }
}

/// The parts of a union: the pieces between the `|` outside of all brackets.
pub open spec fn split_union(label: Seq<char>) -> Seq<Seq<char>> {
    split_state(label).parts.push(split_state(label).current)
}

proof fn lemma_split_len(label: Seq<char>)
    ensures
        split_state(label).current.len() <= label.len(),
        forall|i: int|
            0 <= i < split_state(label).parts.len() ==> (#[trigger] split_state(
                label,
            ).parts[i]).len() <= label.len(),
        split_state(label).depth <= label.len(),
    decreases label.len(),
{
    if label.len() > 0 {
        lemma_split_len(label.drop_last());
    }
}

pub open spec fn texts_model(texts: Seq<&str>) -> Seq<Seq<char>> {
    Seq::new(texts.len(), |i: int| texts[i]@)
}

pub fn split_top_level_union<'a>(label: &'a str) -> (r: Vec<&'a str>)
    ensures
        texts_model(r@) == split_union(label@),
{
    let chars = chars_of(label);
    let mut parts: Vec<&'a str> = Vec::new();
    let mut depth: usize = 0;
    let mut start: usize = 0;
    let mut i: usize = 0;
    proof {
        assert(label@.take(0) =~= Seq::empty());
        assert(texts_model(parts@) =~= Seq::empty());
        assert(label@.subrange(0, 0) =~= Seq::empty());
    }
    while i < chars.len()
        invariant
            chars@ == label@,
            start <= i <= chars@.len(),
            depth <= i,
            depth == split_state(label@.take(i as int)).depth,
            texts_model(parts@) == split_state(label@.take(i as int)).parts,
            label@.subrange(start as int, i as int) == split_state(label@.take(i as int)).current,
        decreases chars@.len() - i,
    {
        let c = chars[i];
        let ghost before = parts@;
        proof {
            assert(label@.take(i + 1).drop_last() =~= label@.take(i as int));
            assert(label@.take(i + 1).last() == c);
            assert(label@.subrange(start as int, i + 1) =~= label@.subrange(
                start as int,
                i as int,
            ).push(c));
        }
        if c == '(' {
            depth = depth + 1;
        } else if c == ')' {
            if depth > 0 {
                depth = depth - 1;
            }
        } else if c == '|' && depth == 0 {
            parts.push(label.substring_char(start, i));
            start = i + 1;
            proof {
                assert(texts_model(parts@) =~= texts_model(before).push(parts@.last()@));
                assert(label@.subrange(i + 1, i + 1) =~= Seq::empty());
            }
        }
        i = i + 1;
    }
    let ghost before = parts@;
    parts.push(label.substring_char(start, i));
    proof {
        assert(label@.take(i as int) =~= label@);
        assert(texts_model(parts@) =~= texts_model(before).push(parts@.last()@));
    }
    parts
}

/// What stands between the brackets of `array(..)`.
pub open spec fn inner_label(label: Seq<char>) -> Option<Seq<char>> {
    if text::has_prefix(label, "array("@) && text::has_suffix(label, ")"@) {
        Some(label.subrange(6, label.len() - 1))
    } else {
        None
    }
}

proof fn lemma_inner_label(label: Seq<char>)
    ensures
        inner_label(label) is Some ==> label.len() >= 7 && inner_label(label)->0.len()
            == label.len() - 7,
{
    reveal_strlit("array(");
    reveal_strlit(")");
    if inner_label(label) is Some {
        assert(label.take(6)[5] == "array("@[5]);
        assert(label.skip(label.len() - 1)[0] == ")"@[0]);
    }
}

pub fn array_inner<'a>(label: &'a str) -> (r: Option<&'a str>)
    ensures
        match r {
            Some(inner) => inner_label(label@) == Some(inner@),
            None => inner_label(label@) is None,
        },
{
    proof {
        lemma_inner_label(label@);
    }
    if !starts_with(label, "array(") || !ends_with(label, ")") {
        return None;
    }
    let length = label.unicode_len();
    Some(label.substring_char(6, length - 1))
}

/// A schema that a label refers to: in how many arrays, whether beside other parts, and
/// whether the whole label was optional.
#[derive(Debug)]
pub struct RelationTarget {
    pub target_schema_path: String,
    pub array_depth: usize,
    pub mixed: bool,
    pub optional: bool,
}

pub ghost struct Target {
    pub path: Seq<char>,
    pub depth: nat,
    pub mixed: bool,
    pub optional: bool,
}

pub open spec fn target_model(t: RelationTarget) -> Target {
    Target {
        path: t.target_schema_path@,
        depth: t.array_depth as nat,
        mixed: t.mixed,
        optional: t.optional,
    }
}

pub open spec fn targets_model(targets: Seq<RelationTarget>) -> Seq<Target> {
    Seq::new(targets.len(), |i: int| target_model(targets[i]))
}

/// The targets, each mixed if it was or if `mixed` holds.
pub open spec fn with_mixed(targets: Seq<Target>, mixed: bool) -> Seq<Target> {
    Seq::new(targets.len(), |i: int| Target { mixed: targets[i].mixed || mixed, ..targets[i] })
}

/// The targets of a label inside of `depth` arrays.
pub open spec fn label_targets(label: Seq<char>, depth: nat, optional: bool) -> Seq<Target>
    decreases label.len(), 1int, 0int,
{
    let parts = split_union(label);
    parts_targets(parts, parts.len() > 1, depth, optional, label.len())
}

/// The targets of the parts of a label of `length` characters. (A label inside of an array is
/// shorter than the label around it.)
pub open spec fn parts_targets(
    parts: Seq<Seq<char>>,
    mixed: bool,
    depth: nat,
    optional: bool,
    length: nat,
) -> Seq<Target>
    decreases length, 0int, parts.len(),
{
    if parts.len() == 0 {
        Seq::empty()
    } else {
        parts_targets(parts.drop_last(), mixed, depth, optional, length) + {
            let part = text::trimmed(parts.last());
            match inner_label(part) {
                Some(inner) => if inner.len() < length {
                    with_mixed(label_targets(inner, depth + 1, optional), mixed)
                } else {
                    Seq::empty()
                },
                None => if text::has_suffix(part, ".json"@) {
                    seq![Target { path: part, depth, mixed, optional }]
                } else {
                    Seq::empty()
                },
            }
        }
    }
}

/// How many arrays of a label stand inside each other.
pub open spec fn nesting(label: Seq<char>) -> nat
    decreases label.len(), 1int, 0int,
{
    parts_nesting(split_union(label), label.len())
}

/// The deepest nesting among the parts of a label of `length` characters.
pub open spec fn parts_nesting(parts: Seq<Seq<char>>, length: nat) -> nat
    decreases length, 0int, parts.len(),
{
    if parts.len() == 0 {
        0
    } else {
        let rest = parts_nesting(parts.drop_last(), length);
        let own = part_nesting(parts.last(), length);
        if own > rest {
            own
        } else {
            rest
        }
    }
}

pub open spec fn part_nesting(part: Seq<char>, length: nat) -> nat
    decreases length, 0int, 0int,
{
    match inner_label(text::trimmed(part)) {
        Some(inner) => if inner.len() < length {
            1 + nesting(inner)
        } else {
            0
        },
        None => 0,
    }
}

/// No part is nested deeper than the whole.
proof fn lemma_part_nesting(parts: Seq<Seq<char>>, length: nat, i: int)
    requires
        0 <= i < parts.len(),
    ensures
        part_nesting(parts[i], length) <= parts_nesting(parts, length),
    decreases parts.len(),
{
    if i < parts.len() - 1 {
        lemma_part_nesting(parts.drop_last(), length, i);
        assert(parts.drop_last()[i] == parts[i]);
    }
}

/// Arrays stand inside each other at most as often as there are characters.
proof fn lemma_nesting_len(label: Seq<char>)
    ensures
        nesting(label) <= label.len(),
    decreases label.len(), 1int, 0int,
{
    lemma_split_len(label);
    lemma_parts_nesting_len(split_union(label), label.len());
}

proof fn lemma_parts_nesting_len(parts: Seq<Seq<char>>, length: nat)
    requires
        forall|i: int| 0 <= i < parts.len() ==> (#[trigger] parts[i]).len() <= length,
    ensures
        parts_nesting(parts, length) <= length,
    decreases length, 0int, parts.len(),
{
    if parts.len() > 0 {
        let d = parts.drop_last();
        let last = parts[parts.len() - 1];
        assert forall|i: int| 0 <= i < d.len() implies (#[trigger] d[i]).len() <= length by {
            assert(d[i] == parts[i]);
        }
        lemma_parts_nesting_len(d, length);
        text::lemma_trimmed_len(last);
        lemma_inner_label(text::trimmed(last));
        if inner_label(text::trimmed(last)) is Some {
            lemma_nesting_len(inner_label(text::trimmed(last))->0);
        }
        assert(part_nesting(last, length) <= length);
        assert(parts.last() == last);
        assert(parts_nesting(parts, length) == if part_nesting(last, length) > parts_nesting(
            d,
            length,
        ) {
            part_nesting(last, length)
        } else {
            parts_nesting(d, length)
        });
    }
}

pub fn relation_targets_from_label(label: &str, array_depth: usize, inherited_optional: bool) -> (r:
    Vec<RelationTarget>)
    requires
        array_depth + nesting(label@) <= usize::MAX,
    ensures
        targets_model(r@) == label_targets(label@, array_depth as nat, inherited_optional),
    decreases label@.len(),
{
    let parts = split_top_level_union(label);
    let mixed_here = parts.len() > 1;
    let ghost all = split_union(label@);
    let mut out: Vec<RelationTarget> = Vec::new();
    let mut i: usize = 0;
    proof {
        lemma_split_len(label@);
        assert(all.take(0) =~= Seq::empty());
        assert(targets_model(out@) =~= Seq::empty());
    }
    while i < parts.len()
        invariant
            array_depth + parts_nesting(all, label@.len()) <= usize::MAX,
            all == split_union(label@),
            texts_model(parts@) == all,
            mixed_here == (all.len() > 1),
            forall|j: int| 0 <= j < all.len() ==> (#[trigger] all[j]).len() <= label@.len(),
            i <= parts@.len(),
            targets_model(out@) == parts_targets(
                all.take(i as int),
                mixed_here,
                array_depth as nat,
                inherited_optional,
                label@.len(),
            ),
        decreases parts@.len() - i,
    {
        let ghost before = targets_model(out@);
        let part = trim(parts[i]);
        proof {
            assert(all[i as int] == parts@[i as int]@);
            assert(all.take(i + 1).drop_last() =~= all.take(i as int));
            assert(all.take(i + 1).last() == all[i as int]);
            text::lemma_trimmed_len(all[i as int]);
            lemma_inner_label(part@);
            lemma_part_nesting(all, label@.len(), i as int);
        }
        if let Some(inner) = array_inner(part) {
            let found = relation_targets_from_label(inner, array_depth + 1, inherited_optional);
            let ghost given = targets_model(found@);
            let ghost more = with_mixed(given, mixed_here);
            let ghost items = found@;
            assert(before + more.take(0) =~= before);
            for target in it: found
                invariant
                    it.seq() == items,
                    given == targets_model(items),
                    more == with_mixed(given, mixed_here),
                    targets_model(out@) == before + more.take(it.index() as int),
            {
                let ghost n = it.index() as int;
                let ghost so_far = out@;
                let mut target = target;
                target.mixed = target.mixed || mixed_here;
                out.push(target);
                proof {
                    assert(targets_model(out@) =~= targets_model(so_far).push(target_model(target)));
                    assert(more[n] == target_model(target));
                    assert(targets_model(out@) =~= before + more.take(n + 1));
                }
            }
            assert(more.take(more.len() as int) =~= more);
        } else if ends_with(part, ".json") {
            let ghost so_far = out@;
            out.push(
                RelationTarget {
                    target_schema_path: part.to_string(),
                    array_depth,
                    mixed: mixed_here,
                    optional: inherited_optional,
                },
            );
            assert(targets_model(out@) =~= before + seq![target_model(out@.last())]);
        } else {
            assert(before + Seq::<Target>::empty() =~= before);
        }
        i = i + 1;
    }
    assert(all.take(all.len() as int) =~= all);
    out
}

/// The targets without those that equal their left neighbour.
pub open spec fn dedup(targets: Seq<Target>) -> Seq<Target>
    decreases targets.len(),
{
    if targets.len() == 0 {
        Seq::empty()
    } else {
        let rest = dedup(targets.drop_last());
        if rest.len() > 0 && rest.last() == targets.last() {
            rest
        } else {
            rest.push(targets.last())
        }
    }
}

pub open spec fn target_keys(targets: Seq<Target>) -> Seq<(Seq<char>, nat)> {
    Seq::new(targets.len(), |i: int| (targets[i].path, targets[i].depth))
}

/// The targets in ascending order of path and depth, equal ones in their order.
pub open spec fn sorted_targets(targets: Seq<Target>) -> Seq<Target> {
    let ranks = order::ranked(target_keys(targets));
    Seq::new(ranks.len(), |i: int| targets[ranks[i].1 as int])
}

/// The targets of the label of a field.
pub open spec fn field_targets(label: Seq<char>) -> Seq<Target> {
    dedup(
        sorted_targets(
            label_targets(
                text::without_tail(label, '?'),
                0,
                label.len() > 0 && label.last() == '?',
            ),
        ),
    )
}

pub fn relation_targets_from_field_type(field_type: &str) -> (r: Vec<RelationTarget>)
    ensures
        targets_model(r@) == field_targets(field_type@),
{
    let optional = ends_with_char(field_type, '?');
    let label = trim_end_char(field_type, '?');
    let length = label.unicode_len();
    proof {
        lemma_nesting_len(label@);
    }
    let targets = relation_targets_from_label(label, 0, optional);
    let ghost all = targets_model(targets@);
    let mut keys: Vec<((String, usize), usize)> = Vec::new();
    let mut i: usize = 0;
    while i < targets.len()
        invariant
            i <= targets@.len(),
            keys@.len() == i,
            forall|j: int|
                0 <= j < i ==> (#[trigger] keys@[j]).0.0@ == targets@[j].target_schema_path@
                    && keys@[j].0.1 == targets@[j].array_depth && keys@[j].1 == j,
        decreases targets@.len() - i,
    {
        keys.push(((targets[i].target_schema_path.clone(), targets[i].array_depth), i));
        i = i + 1;
    }
    let ghost listed = keys@;
    let ghost ranks = order::ranked(target_keys(all));
    proof {
        assert(text::models(listed) =~= Seq::new(
            target_keys(all).len(),
            |j: int| (target_keys(all)[j], j as nat),
        ));
        order::lemma_ranked(target_keys(all));
    }
    let ranking = sorted_vec(keys);
    let ghost ordered = sorted_targets(all);
    let mut out: Vec<RelationTarget> = Vec::new();
    let mut i: usize = 0;
    proof {
        assert(ordered.take(0) =~= Seq::empty());
        assert(targets_model(out@) =~= Seq::empty());
    }
    while i < ranking.len()
        invariant
            i <= ranking@.len(),
            all == targets_model(targets@),
            ranks == order::ranked(target_keys(all)),
            text::models(ranking@) == ranks,
            ordered == sorted_targets(all),
            forall|j: int|
                0 <= j < ranks.len() ==> (#[trigger] ranks[j]).1 < target_keys(all).len(),
            targets_model(out@) == dedup(ordered.take(i as int)),
        decreases ranking@.len() - i,
    {
        proof {
            assert(text::models(ranking@)[i as int] == ranking@[i as int].model());
            assert(ranks[i as int].1 < target_keys(all).len());
            assert(ordered.take(i + 1).drop_last() =~= ordered.take(i as int));
            assert(ordered.take(i + 1).last() == ordered[i as int]);
        }
        let target = &targets[ranking[i].1];
        let ghost before = out@;
        let repeated = out.len() > 0 && same_target(&out[out.len() - 1], target);
        if !repeated {
            out.push(
                RelationTarget {
                    target_schema_path: target.target_schema_path.clone(),
                    array_depth: target.array_depth,
                    mixed: target.mixed,
                    optional: target.optional,
                },
            );
            assert(targets_model(out@) =~= targets_model(before).push(ordered[i as int]));
        }
        i = i + 1;
    }
    assert(ordered.take(ordered.len() as int) =~= ordered);
    out
}

fn same_target(a: &RelationTarget, b: &RelationTarget) -> (r: bool)
    ensures
        r == (target_model(*a) == target_model(*b)),
{
    same_text(a.target_schema_path.as_str(), b.target_schema_path.as_str()) && a.array_depth
        == b.array_depth && a.mixed == b.mixed && a.optional == b.optional
}

/// A link between two schemas.
#[derive(Debug)]
pub struct SchemaRelation {
    pub from_schema_path: String,
    pub to_schema_path: String,
    pub relation_kind: String,
    pub fk_owner: String,
    pub fk_candidate: bool,
    pub field_name: String,
    pub field_type: String,
    pub cardinality: String,
    pub required: bool,
    pub mixed: bool,
    pub nested_array_depth: usize,
    pub via_schema_path: Option<String>,
    pub via_array_path: Option<String>,
    pub parent_schema_path: String,
    pub child_schema_path: String,
    pub parent_object_count: u128,
    pub child_object_count: u128,
    pub field_count: u128,
}

pub ghost struct Relation {
    pub from: Seq<char>,
    pub to: Seq<char>,
    pub kind: Seq<char>,
    pub fk_owner: Seq<char>,
    pub fk_candidate: bool,
    pub field_name: Seq<char>,
    pub field_type: Seq<char>,
    pub cardinality: Seq<char>,
    pub required: bool,
    pub mixed: bool,
    pub nested_depth: nat,
    pub via_schema: Option<Seq<char>>,
    pub via_array: Option<Seq<char>>,
    pub parent: Seq<char>,
    pub child: Seq<char>,
    pub parent_count: nat,
    pub child_count: nat,
    pub field_count: nat,
}

pub open spec fn relation_model(r: SchemaRelation) -> Relation {
    Relation {
        from: r.from_schema_path@,
        to: r.to_schema_path@,
        kind: r.relation_kind@,
        fk_owner: r.fk_owner@,
        fk_candidate: r.fk_candidate,
        field_name: r.field_name@,
        field_type: r.field_type@,
        cardinality: r.cardinality@,
        required: r.required,
        mixed: r.mixed,
        nested_depth: r.nested_array_depth as nat,
        via_schema: records::text_option(r.via_schema_path),
        via_array: records::text_option(r.via_array_path),
        parent: r.parent_schema_path@,
        child: r.child_schema_path@,
        parent_count: r.parent_object_count as nat,
        child_count: r.child_object_count as nat,
        field_count: r.field_count as nat,
    }
}

pub open spec fn relations_model(relations: Seq<SchemaRelation>) -> Seq<Relation> {
    Seq::new(relations.len(), |i: int| relation_model(relations[i]))
}

/// The schemas that vary below an array path, each with that path.
pub open spec fn variant_pairs(recs: Seq<Rec>) -> Seq<(Seq<char>, Seq<char>)>
    decreases recs.len(),
{
    if recs.len() == 0 {
        Seq::empty()
    } else {
        let rest = variant_pairs(recs.drop_last());
        match recs.last().array_parent {
            Some(parent) => if recs.last().schema_path != parent {
                rest.push((parent, recs.last().schema_path))
            } else {
                rest
            },
            None => rest,
        }
    }
}

/// What relations are read off: the schemas, the variants of each array, and the counts.
pub ghost struct Context {
    pub definitions: Map<Seq<char>, Seq<(Seq<char>, Seq<char>)>>,
    pub variants: Seq<(Seq<char>, Seq<char>)>,
    pub objects: Map<Seq<char>, nat>,
    pub fields: Map<(Seq<char>, Seq<char>), (Seq<char>, nat)>,
}

pub open spec fn heterogeneous(cx: Context, p: Seq<char>) -> bool {
    cx.definitions.contains_key(p) && index::is_container(cx.definitions[p])
}

pub open spec fn object_count(cx: Context, p: Seq<char>) -> nat {
    if cx.objects.contains_key(p) {
        cx.objects[p]
    } else {
        0
    }
}

pub open spec fn field_count(cx: Context, p: Seq<char>, name: Seq<char>) -> nat {
    if cx.fields.contains_key((p, name)) {
        cx.fields[(p, name)].1
    } else {
        0
    }
}

/// Every object of the schema `p` has the field.
pub open spec fn is_required(cx: Context, p: Seq<char>, name: Seq<char>) -> bool {
    object_count(cx, p) > 0 && field_count(cx, p, name) == object_count(cx, p)
}

/// The link from a field to the object that it holds.
pub open spec fn object_relation(
    cx: Context,
    parent: Seq<char>,
    name: Seq<char>,
    label: Seq<char>,
    t: Target,
) -> Relation {
    Relation {
        from: parent,
        to: t.path,
        kind: "object_ref"@,
        fk_owner: "parent"@,
        fk_candidate: true,
        field_name: name,
        field_type: label,
        cardinality: if is_required(cx, parent, name) {
            "one_to_one_candidate"@
        } else {
            "zero_or_one_to_one_candidate"@
        },
        required: is_required(cx, parent, name),
        mixed: t.mixed,
        nested_depth: 0,
        via_schema: None,
        via_array: None,
        parent,
        child: t.path,
        parent_count: object_count(cx, parent),
        child_count: object_count(cx, t.path),
        field_count: field_count(cx, parent, name),
    }
}

/// The link from the items of an array to the object whose field holds the array.
pub open spec fn item_relation(
    cx: Context,
    parent: Seq<char>,
    name: Seq<char>,
    label: Seq<char>,
    t: Target,
    child: Seq<char>,
) -> Relation {
    let nested = t.depth >= 2;
    Relation {
        from: child,
        to: parent,
        kind: if nested {
            "nested_array_item"@
        } else if heterogeneous(cx, t.path) {
            "heterogeneous_array_item"@
        } else {
            "array_item"@
        },
        fk_owner: "child"@,
        fk_candidate: !nested,
        field_name: name,
        field_type: label,
        cardinality: if nested {
            "nested_many_to_one_marker"@
        } else {
            "many_to_one"@
        },
        required: is_required(cx, parent, name),
        mixed: t.mixed,
        nested_depth: t.depth,
        via_schema: Some(t.path),
        via_array: Some(t.path),
        parent,
        child,
        parent_count: object_count(cx, parent),
        child_count: object_count(cx, child),
        field_count: field_count(cx, parent, name),
    }
}

/// The schemas of the items of an array.
pub open spec fn item_schemas(cx: Context, t: Target) -> Seq<Seq<char>> {
    if heterogeneous(cx, t.path) {
        order::sorted_set(order::under(cx.variants, t.path))
    } else {
        seq![t.path]
    }
}

pub open spec fn target_relations(
    cx: Context,
    parent: Seq<char>,
    name: Seq<char>,
    label: Seq<char>,
    t: Target,
) -> Seq<Relation> {
    if t.depth == 0 {
        if heterogeneous(cx, t.path) {
            Seq::empty()
        } else {
            seq![object_relation(cx, parent, name, label, t)]
        }
    } else {
        let children = item_schemas(cx, t);
        Seq::new(
            children.len(),
            |i: int| item_relation(cx, parent, name, label, t, children[i]),
        )
    }
}

pub open spec fn targets_relations(
    cx: Context,
    parent: Seq<char>,
    name: Seq<char>,
    label: Seq<char>,
    targets: Seq<Target>,
) -> Seq<Relation>
    decreases targets.len(),
{
    if targets.len() == 0 {
        Seq::empty()
    } else {
        targets_relations(cx, parent, name, label, targets.drop_last()) + target_relations(
            cx,
            parent,
            name,
            label,
            targets.last(),
        )
    }
}

/// The relations of the fields of a schema; a field that no object has gives none.
pub open spec fn fields_relations(
    cx: Context,
    parent: Seq<char>,
    schema: Seq<(Seq<char>, Seq<char>)>,
) -> Seq<Relation>
    decreases schema.len(),
{
    if schema.len() == 0 {
        Seq::empty()
    } else {
        let (name, label) = schema.last();
        fields_relations(cx, parent, schema.drop_last()) + if field_count(cx, parent, name) == 0 {
            Seq::empty()
        } else {
            targets_relations(cx, parent, name, label, field_targets(label))
        }
    }
}

pub open spec fn record_relations(cx: Context, rec: Rec) -> Seq<Relation> {
    if index::is_container(rec.schema) {
        Seq::empty()
    } else {
        fields_relations(cx, rec.schema_path, rec.schema)
    }
}

/// The relations of all records, in their order.
pub open spec fn relations(cx: Context, recs: Seq<Rec>) -> Seq<Relation>
    decreases recs.len(),
{
    if recs.len() == 0 {
        Seq::empty()
    } else {
        relations(cx, recs.drop_last()) + record_relations(cx, recs.last())
    }
}

pub open spec fn context(recs: Seq<Rec>, objects: Map<Seq<char>, nat>, fields: Map<
    (Seq<char>, Seq<char>),
    (Seq<char>, nat),
>) -> Context {
    Context {
        definitions: index::last_wins(index::definition_pairs(recs)),
        variants: variant_pairs(recs),
        objects,
        fields,
    }
}

/// The executable side of a [`Context`].
struct Sources<'a> {
    definitions: OrdMap<String, Vec<(String, String)>>,
    variants: OrdMap<String, Vec<String>>,
    statistics: &'a Statistics,
}

impl<'a> Sources<'a> {
    spec fn holds(self, cx: Context) -> bool {
        &&& self.definitions.wf()
        &&& index::schemas_of(self.definitions) == cx.definitions
        &&& self.variants.wf()
        &&& forall|p: Seq<char>| #[trigger]
            self.variants.map().contains_key(p) <==> order::firsts(cx.variants).contains(p)
        &&& forall|p: Seq<char>| #[trigger]
            self.variants.map().contains_key(p) ==> text::models(self.variants.map()[p]@)
                == order::sorted_set(order::under(cx.variants, p))
        &&& self.statistics.object_counts.wf()
        &&& self.statistics.field_counts.wf()
        &&& statistics::counts_of(self.statistics.object_counts) == cx.objects
        &&& statistics::field_counts_of(self.statistics.field_counts) == cx.fields
    }

    fn is_heterogeneous(&self, p: &String, Ghost(cx): Ghost<Context>) -> (r: bool)
        requires
            self.holds(cx),
        ensures
            r == heterogeneous(cx, p@),
    {
        match self.definitions.get(p) {
            Some(schema) => {
                assert(index::schemas_of(self.definitions)[p@] == json::schema_model(schema@));
                is_refs_mut_schema(schema)
            },
            None => {
                assert(!index::schemas_of(self.definitions).contains_key(p@));
                false
            },
        }
    }

    fn object_count(&self, p: &String, Ghost(cx): Ghost<Context>) -> (r: u128)
        requires
            self.holds(cx),
        ensures
            r == object_count(cx, p@),
    {
        match self.statistics.object_counts.get(p) {
            Some(n) => {
                assert(statistics::counts_of(self.statistics.object_counts)[p@] == *n);
                *n
            },
            None => {
                assert(!statistics::counts_of(self.statistics.object_counts).contains_key(p@));
                0
            },
        }
    }

    fn field_count(&self, p: &String, name: &String, Ghost(cx): Ghost<Context>) -> (r: u128)
        requires
            self.holds(cx),
        ensures
            r == field_count(cx, p@, name@),
    {
        let key = (p.clone(), name.clone());
        match self.statistics.field_counts.get(&key) {
            Some(v) => {
                assert(statistics::field_counts_of(self.statistics.field_counts)[(p@, name@)].1
                    == v.1);
                v.1
            },
            None => {
                assert(!statistics::field_counts_of(self.statistics.field_counts).contains_key(
                    (p@, name@),
                ));
                0
            },
        }
    }

    fn item_schemas(&self, target: &RelationTarget, Ghost(cx): Ghost<Context>) -> (r: Vec<String>)
        requires
            self.holds(cx),
        ensures
            text::models(r@) == item_schemas(cx, target_model(*target)),
    {
        if self.is_heterogeneous(&target.target_schema_path, Ghost(cx)) {
            let ghost p = target.target_schema_path@;
            match self.variants.get(&target.target_schema_path) {
                Some(found) => copy_texts(found),
                None => {
                    let none: Vec<String> = Vec::new();
                    proof {
                        order::lemma_under_nonempty(cx.variants, p);
                        assert(order::under(cx.variants, p) =~= Seq::empty());
                        assert(text::models(none@) =~= item_schemas(cx, target_model(*target)));
                    }
                    none
                },
            }
        } else {
            let mut one: Vec<String> = Vec::new();
            one.push(target.target_schema_path.clone());
            assert(text::models(one@) =~= item_schemas(cx, target_model(*target)));
            one
        }
    }
}

/// The field that relations are read off.
struct FieldSite<'a> {
    parent: &'a String,
    name: &'a String,
    label: &'a String,
    required: bool,
    parent_count: u128,
    field_count: u128,
}

impl<'a> FieldSite<'a> {
    spec fn holds(self, cx: Context) -> bool {
        &&& self.required == is_required(cx, self.parent@, self.name@)
        &&& self.parent_count == object_count(cx, self.parent@)
        &&& self.field_count == field_count(cx, self.parent@, self.name@)
    }
}

fn make_object_relation(
    sources: &Sources<'_>,
    site: &FieldSite<'_>,
    target: &RelationTarget,
    Ghost(cx): Ghost<Context>,
) -> (r: SchemaRelation)
    requires
        sources.holds(cx),
        site.holds(cx),
    ensures
        relation_model(r) == object_relation(
            cx,
            site.parent@,
            site.name@,
            site.label@,
            target_model(*target),
        ),
{
    SchemaRelation {
        from_schema_path: site.parent.clone(),
        to_schema_path: target.target_schema_path.clone(),
        relation_kind: "object_ref".to_string(),
        fk_owner: "parent".to_string(),
        fk_candidate: true,
        field_name: site.name.clone(),
        field_type: site.label.clone(),
        cardinality: if site.required {
            "one_to_one_candidate".to_string()
        } else {
            "zero_or_one_to_one_candidate".to_string()
        },
        required: site.required,
        mixed: target.mixed,
        nested_array_depth: 0,
        via_schema_path: None,
        via_array_path: None,
        parent_schema_path: site.parent.clone(),
        child_schema_path: target.target_schema_path.clone(),
        parent_object_count: site.parent_count,
        child_object_count: sources.object_count(&target.target_schema_path, Ghost(cx)),
        field_count: site.field_count,
    }
}

fn make_item_relation(
    sources: &Sources<'_>,
    site: &FieldSite<'_>,
    target: &RelationTarget,
    child: &String,
    Ghost(cx): Ghost<Context>,
) -> (r: SchemaRelation)
    requires
        sources.holds(cx),
        site.holds(cx),
    ensures
        relation_model(r) == item_relation(
            cx,
            site.parent@,
            site.name@,
            site.label@,
            target_model(*target),
            child@,
        ),
{
    let nested = target.array_depth >= 2;
    SchemaRelation {
        from_schema_path: child.clone(),
        to_schema_path: site.parent.clone(),
        relation_kind: if nested {
            "nested_array_item".to_string()
        } else if sources.is_heterogeneous(&target.target_schema_path, Ghost(cx)) {
            "heterogeneous_array_item".to_string()
        } else {
            "array_item".to_string()
        },
        fk_owner: "child".to_string(),
        fk_candidate: !nested,
        field_name: site.name.clone(),
        field_type: site.label.clone(),
        cardinality: if nested {
            "nested_many_to_one_marker".to_string()
        } else {
            "many_to_one".to_string()
        },
        required: site.required,
        mixed: target.mixed,
        nested_array_depth: target.array_depth,
        via_schema_path: Some(target.target_schema_path.clone()),
        via_array_path: Some(target.target_schema_path.clone()),
        parent_schema_path: site.parent.clone(),
        child_schema_path: child.clone(),
        parent_object_count: site.parent_count,
        child_object_count: sources.object_count(child, Ghost(cx)),
        field_count: site.field_count,
    }
}

fn push_target_relations(
    sources: &Sources<'_>,
    site: &FieldSite<'_>,
    target: &RelationTarget,
    Ghost(cx): Ghost<Context>,
    out: &mut Vec<SchemaRelation>,
)
    requires
        sources.holds(cx),
        site.holds(cx),
    ensures
        relations_model(final(out)@) == relations_model(old(out)@) + target_relations(
            cx,
            site.parent@,
            site.name@,
            site.label@,
            target_model(*target),
        ),
{
    let ghost before = relations_model(out@);
    let ghost start = out@;
    let ghost t = target_model(*target);
    let ghost more = target_relations(cx, site.parent@, site.name@, site.label@, t);
    if target.array_depth == 0 {
        if !sources.is_heterogeneous(&target.target_schema_path, Ghost(cx)) {
            out.push(make_object_relation(sources, site, target, Ghost(cx)));
        }
        assert(relations_model(out@) =~= before + more);
        return;
    }
    let children = sources.item_schemas(target, Ghost(cx));
    let mut i: usize = 0;
    assert(before + more.take(0) =~= before);
    while i < children.len()
        invariant
            sources.holds(cx),
            site.holds(cx),
            t == target_model(*target),
            t.depth > 0,
            text::models(children@) == item_schemas(cx, t),
            more == target_relations(cx, site.parent@, site.name@, site.label@, t),
            i <= children@.len(),
            relations_model(out@) == before + more.take(i as int),
        decreases children@.len() - i,
    {
        let ghost so_far = out@;
        assert(text::models(children@)[i as int] == children@[i as int]@);
        out.push(make_item_relation(sources, site, target, &children[i], Ghost(cx)));
        proof {
            assert(relations_model(out@) =~= relations_model(so_far).push(more[i as int]));
            assert(relations_model(out@) =~= before + more.take(i + 1));
        }
        i = i + 1;
    }
    assert(more.take(more.len() as int) =~= more);
}

fn push_record_relations(
    sources: &Sources<'_>,
    record: &Record,
    Ghost(cx): Ghost<Context>,
    out: &mut Vec<SchemaRelation>,
)
    requires
        sources.holds(cx),
    ensures
        relations_model(final(out)@) == relations_model(old(out)@) + record_relations(
            cx,
            records::record_model(*record),
        ),
{
    let ghost before = relations_model(out@);
    let ghost rec = records::record_model(*record);
    if is_refs_mut_schema(&record.schema) {
        assert(before + Seq::<Relation>::empty() =~= before);
        return;
    }
    let parent = &record.schema_path;
    let parent_count = sources.object_count(parent, Ghost(cx));
    let mut i: usize = 0;
    proof {
        assert(rec.schema.take(0) =~= Seq::empty());
        assert(before + fields_relations(cx, rec.schema_path, rec.schema.take(0)) =~= before);
    }
    while i < record.schema.len()
        invariant
            sources.holds(cx),
            rec == records::record_model(*record),
            *parent == record.schema_path,
            parent_count == object_count(cx, parent@),
            i <= record.schema@.len(),
            relations_model(out@) == before + fields_relations(
                cx,
                rec.schema_path,
                rec.schema.take(i as int),
            ),
        decreases record.schema@.len() - i,
    {
        let name = &record.schema[i].0;
        let label = &record.schema[i].1;
        let ghost so_far = relations_model(out@);
        proof {
            assert(rec.schema.take(i + 1).drop_last() =~= rec.schema.take(i as int));
            assert(rec.schema.take(i + 1).last() == (name@, label@));
        }
        let count = sources.field_count(parent, name, Ghost(cx));
        if count != 0 {
            let required = parent_count > 0 && count == parent_count;
            let site = FieldSite {
                parent,
                name,
                label,
                required,
                parent_count,
                field_count: count,
            };
            let targets = relation_targets_from_field_type(label.as_str());
            let ghost all = field_targets(label@);
            let mut j: usize = 0;
            proof {
                assert(all.take(0) =~= Seq::empty());
                assert(so_far + targets_relations(cx, parent@, name@, label@, all.take(0))
                    =~= so_far);
            }
            while j < targets.len()
                invariant
                    sources.holds(cx),
                    site.holds(cx),
                    site.parent@ == parent@,
                    site.name@ == name@,
                    site.label@ == label@,
                    all == field_targets(label@),
                    targets_model(targets@) == all,
                    j <= targets@.len(),
                    relations_model(out@) == so_far + targets_relations(
                        cx,
                        parent@,
                        name@,
                        label@,
                        all.take(j as int),
                    ),
                decreases targets@.len() - j,
            {
                proof {
                    assert(all.take(j + 1).drop_last() =~= all.take(j as int));
                    assert(all.take(j + 1).last() == target_model(targets@[j as int]));
                }
                push_target_relations(sources, &site, &targets[j], Ghost(cx), out);
                assert(relations_model(out@) =~= so_far + targets_relations(
                    cx,
                    parent@,
                    name@,
                    label@,
                    all.take(j + 1),
                ));
                j = j + 1;
            }
            assert(all.take(all.len() as int) =~= all);
        } else {
            assert(so_far + Seq::<Relation>::empty() =~= so_far);
        }
        assert(relations_model(out@) =~= before + fields_relations(
            cx,
            rec.schema_path,
            rec.schema.take(i + 1),
        ));
        i = i + 1;
    }
    assert(rec.schema.take(rec.schema.len() as int) =~= rec.schema);
}

/// The variants of every array path.
fn variants_of(records: &Vec<Record>) -> (r: OrdMap<String, Vec<String>>)
    ensures
        r.wf(),
        forall|p: Seq<char>| #[trigger]
            r.map().contains_key(p) <==> order::firsts(
                variant_pairs(records::records_model(records@)),
            ).contains(p),
        forall|p: Seq<char>| #[trigger]
            r.map().contains_key(p) ==> text::models(r.map()[p]@) == order::sorted_set(
                order::under(variant_pairs(records::records_model(records@)), p),
            ),
{
    let ghost recs = records::records_model(records@);
    let ghost f = |t: String| t@;
    let mut pairs: Vec<(String, String)> = Vec::new();
    let mut i: usize = 0;
    proof {
        assert(recs.take(0) =~= Seq::empty());
        assert(json::schema_model(pairs@) =~= Seq::empty());
    }
    while i < records.len()
        invariant
            recs == records::records_model(records@),
            i <= records@.len(),
            json::schema_model(pairs@) == variant_pairs(recs.take(i as int)),
        decreases records@.len() - i,
    {
        proof {
            assert(recs.take(i + 1).drop_last() =~= recs.take(i as int));
            assert(recs.take(i + 1).last() == records::record_model(records@[i as int]));
        }
        if let Some(parent) = &records[i].array_parent {
            if !same_text(records[i].schema_path.as_str(), parent.as_str()) {
                let ghost before = pairs@;
                pairs.push((parent.clone(), records[i].schema_path.clone()));
                assert(json::schema_model(pairs@) =~= json::schema_model(before).push(
                    (parent@, records@[i as int].schema_path@),
                ));
            }
        }
        i = i + 1;
    }
    let ghost given = pairs@;
    let ghost target = variant_pairs(recs);
    proof {
        assert(recs.take(recs.len() as int) =~= recs);
        assert(target =~= Seq::new(given.len(), |i: int| (given[i].0.model(), f(given[i].1))));
        assert(ordmap::key_models(given) =~= order::firsts(target));
        order::lemma_sorted_set(order::firsts(target));
    }
    let groups = group_by(pairs);
    let ghost entries = groups.entries@;
    let ghost keys = groups.keys();
    let mut out: OrdMap<String, Vec<String>> = OrdMap::new();
    for entry in it: groups.entries
        invariant
            it.seq() == entries,
            keys == order::sorted_set(order::firsts(target)),
            order::ascending(keys),
            keys.len() == entries.len(),
            forall|j: int| 0 <= j < keys.len() ==> #[trigger] keys[j] == entries[j].0@,
            f == (|t: String| t@),
            target == Seq::new(given.len(), |i: int| (given[i].0.model(), f(given[i].1))),
            forall|j: int|
                0 <= j < entries.len() ==> (#[trigger] entries[j]).1@ == ordmap::picked(
                    given,
                    entries[j].0.model(),
                ),
            out.wf(),
            forall|p: Seq<char>| #[trigger]
                out.map().contains_key(p) <==> keys.take(it.index() as int).contains(p),
            forall|p: Seq<char>| #[trigger]
                out.map().contains_key(p) ==> text::models(out.map()[p]@) == order::sorted_set(
                    order::under(target, p),
                ),
    {
        let ghost n = it.index() as int;
        let ghost p = entry.0@;
        let ghost before = out;
        proof {
            assert(keys[n] == p);
            ordmap::lemma_picked(given, f, p);
            assert(text::models(entry.1@) =~= order::under(target, p));
        }
        out.insert(entry.0, sorted_vec(entry.1));
        proof {
            assert forall|q: Seq<char>| #[trigger]
                out.map().contains_key(q) <==> keys.take(n + 1).contains(q) by {
                assert(keys.take(n + 1) =~= keys.take(n).push(p));
                if keys.take(n).contains(q) {
                    let j = keys.take(n).index_of(q);
                    assert(keys.take(n + 1)[j] == q);
                }
                assert(keys.take(n + 1)[n] == p);
                if keys.take(n + 1).contains(q) && q != p {
                    let j = keys.take(n + 1).index_of(q);
                    assert(keys.take(n)[j] == q);
                }
                assert(before.map().contains_key(q) <==> keys.take(n).contains(q));
            }
        }
    }
    assert(keys.take(keys.len() as int) =~= keys);
    out
}

/// The relations have the same schemas, kind, field and intermediate paths, none of these
/// missing.
pub open spec fn same_row(a: Relation, b: Relation) -> bool {
    &&& a.via_schema is Some
    &&& a.via_array is Some
    &&& a.from == b.from
    &&& a.to == b.to
    &&& a.kind == b.kind
    &&& a.field_name == b.field_name
    &&& a.field_type == b.field_type
    &&& a.via_schema == b.via_schema
    &&& a.via_array == b.via_array
}

pub open spec fn listed(rows: Seq<Relation>, r: Relation) -> bool {
    exists|i: int| 0 <= i < rows.len() && same_row(#[trigger] rows[i], r)
}

/// The relations without those that repeat an earlier one.
pub open spec fn unique_rows(rows: Seq<Relation>) -> Seq<Relation>
    decreases rows.len(),
{
    if rows.len() == 0 {
        Seq::empty()
    } else {
        let kept = unique_rows(rows.drop_last());
        if listed(kept, rows.last()) {
            kept
        } else {
            kept.push(rows.last())
        }
    }
}

fn same_option(a: &Option<String>, b: &Option<String>) -> (r: bool)
    ensures
        r == (records::text_option(*a) == records::text_option(*b)),
{
    match (a, b) {
        (Some(x), Some(y)) => same_text(x.as_str(), y.as_str()),
        (None, None) => true,
        _ => false,
    }
}

fn is_same_row(a: &SchemaRelation, b: &SchemaRelation) -> (r: bool)
    ensures
        r == same_row(relation_model(*a), relation_model(*b)),
{
    a.via_schema_path.is_some() && a.via_array_path.is_some() && same_text(
        a.from_schema_path.as_str(),
        b.from_schema_path.as_str(),
    ) && same_text(a.to_schema_path.as_str(), b.to_schema_path.as_str()) && same_text(
        a.relation_kind.as_str(),
        b.relation_kind.as_str(),
    ) && same_text(a.field_name.as_str(), b.field_name.as_str()) && same_text(
        a.field_type.as_str(),
        b.field_type.as_str(),
    ) && same_option(&a.via_schema_path, &b.via_schema_path) && same_option(
        &a.via_array_path,
        &b.via_array_path,
    )
}

/// The places of the relations that lead to each path.
spec fn places_hold(places: OrdMap<String, Vec<usize>>, rows: Seq<SchemaRelation>) -> bool {
    &&& places.wf()
    &&& forall|p: Seq<char>, i: int|
        places.map().contains_key(p) && 0 <= i < places.map()[p]@.len()
            ==> #[trigger] places.map()[p]@[i] < rows.len()
    &&& forall|n: int|
        0 <= n < rows.len() ==> is_placed(places, (#[trigger] rows[n]).to_schema_path@, n)
}

spec fn is_placed(places: OrdMap<String, Vec<usize>>, p: Seq<char>, n: int) -> bool {
    places.map().contains_key(p) && exists|i: int|
        0 <= i < places.map()[p]@.len() && #[trigger] places.map()[p]@[i] == n
}

fn is_listed(
    rows: &Vec<SchemaRelation>,
    places: &OrdMap<String, Vec<usize>>,
    relation: &SchemaRelation,
) -> (r: bool)
    requires
        places_hold(*places, rows@),
    ensures
        r == listed(relations_model(rows@), relation_model(*relation)),
{
    let ghost models = relations_model(rows@);
    let ghost target = relation_model(*relation);
    match places.get(&relation.to_schema_path) {
        None => {
            assert forall|n: int| 0 <= n < models.len() implies !same_row(
                #[trigger] models[n],
                target,
            ) by {
                assert(models[n] == relation_model(rows@[n]));
                assert(is_placed(*places, rows@[n].to_schema_path@, n));
            }
            false
        },
        Some(found) => {
            let mut i: usize = 0;
            while i < found.len()
                invariant
                    places_hold(*places, rows@),
                    places.map().contains_key(relation.to_schema_path@),
                    *found == places.map()[relation.to_schema_path@],
                    i <= found@.len(),
                    models == relations_model(rows@),
                    target == relation_model(*relation),
                    forall|j: int| 0 <= j < i ==> !same_row(models[#[trigger] found@[j] as int], target),
                decreases found@.len() - i,
            {
                let at = found[i];
                assert(places.map()[relation.to_schema_path@]@[i as int] < rows@.len());
                assert(models[at as int] == relation_model(rows@[at as int]));
                if is_same_row(&rows[at], relation) {
                    return true;
                }
                i = i + 1;
            }
            assert forall|n: int| 0 <= n < models.len() implies !same_row(
                #[trigger] models[n],
                target,
            ) by {
                assert(models[n] == relation_model(rows@[n]));
                assert(is_placed(*places, rows@[n].to_schema_path@, n));
                if same_row(models[n], target) {
                    let j = choose|j: int|
                        0 <= j < places.map()[rows@[n].to_schema_path@]@.len()
                            && #[trigger] places.map()[rows@[n].to_schema_path@]@[j] == n;
                    assert(found@[j] == n);
                }
            }
            false
        },
    }
}

/// Leaves out the relations that repeat an earlier one.
pub fn without_repeats(rows: Vec<SchemaRelation>) -> (r: Vec<SchemaRelation>)
    ensures
        relations_model(r@) == unique_rows(relations_model(rows@)),
{
    let ghost all = rows@;
    let ghost models = relations_model(all);
    let mut kept: Vec<SchemaRelation> = Vec::new();
    let mut places: OrdMap<String, Vec<usize>> = OrdMap::new();
    assert(models.take(0) =~= Seq::empty());
    assert(relations_model(kept@) =~= Seq::empty());
    for relation in it: rows
        invariant
            it.seq() == all,
            models == relations_model(all),
            relations_model(kept@) == unique_rows(models.take(it.index() as int)),
            places_hold(places, kept@),
    {
        let ghost n = it.index() as int;
        let ghost before = kept@;
        let ghost known = places;
        proof {
            assert(models.take(n + 1).drop_last() =~= models.take(n));
            assert(models.take(n + 1).last() == relation_model(relation));
        }
        if !is_listed(&kept, &places, &relation) {
            let ghost p = relation.to_schema_path@;
            let at = kept.len();
            push_under(&mut places, relation.to_schema_path.clone(), at);
            kept.push(relation);
            proof {
                assert(relations_model(kept@) =~= relations_model(before).push(
                    relation_model(relation),
                ));
                assert(kept@.drop_last() =~= before);
                lemma_placed(known, places, before, kept@, p, at);
            }
        }
    }
    assert(models.take(models.len() as int) =~= models);
    kept
}

/// A relation is placed, and those before it stay so.
proof fn lemma_placed(
    known: OrdMap<String, Vec<usize>>,
    places: OrdMap<String, Vec<usize>>,
    before: Seq<SchemaRelation>,
    rows: Seq<SchemaRelation>,
    p: Seq<char>,
    at: usize,
)
    requires
        places_hold(known, before),
        places.wf(),
        rows.len() == before.len() + 1,
        rows.drop_last() == before,
        rows.last().to_schema_path@ == p,
        at == before.len(),
        forall|k: Seq<char>| #[trigger]
            places.map().contains_key(k) <==> known.map().contains_key(k) || k == p,
        forall|k: Seq<char>|
            k != p && #[trigger] known.map().contains_key(k) ==> places.map()[k] == known.map()[k],
        places.map()[p]@ == (if known.map().contains_key(p) {
            known.map()[p]@
        } else {
            Seq::empty()
        }).push(at),
    ensures
        places_hold(places, rows),
{
    assert forall|k: Seq<char>, i: int|
        places.map().contains_key(k) && 0 <= i < places.map()[k]@.len() implies
        #[trigger] places.map()[k]@[i] < rows.len() by {
        if k != p {
            assert(known.map().contains_key(k));
            assert(known.map()[k]@[i] < before.len());
        } else if known.map().contains_key(p) && i < known.map()[p]@.len() {
            assert(known.map()[p]@[i] < before.len());
        }
    }
    assert forall|n: int| 0 <= n < rows.len() implies is_placed(
        places,
        (#[trigger] rows[n]).to_schema_path@,
        n,
    ) by {
        let k = rows[n].to_schema_path@;
        if n < before.len() {
            assert(before[n] == rows[n]);
            assert(is_placed(known, k, n));
            let i = choose|i: int|
                0 <= i < known.map()[k]@.len() && #[trigger] known.map()[k]@[i] == n;
            assert(places.map()[k]@[i] == n);
        } else {
            let i = places.map()[p]@.len() - 1;
            assert(places.map()[p]@[i] == n);
        }
    }
}

/// The relations of all records, in their order, each once.
pub fn write_schema_relations(records: &Vec<Record>, statistics: &Statistics) -> (r: Vec<
    SchemaRelation,
>)
    requires
        statistics.object_counts.wf(),
        statistics.field_counts.wf(),
    ensures
        relations_model(r@) == unique_rows(
            relations(
                context(
                    records::records_model(records@),
                    statistics::counts_of(statistics.object_counts),
                    statistics::field_counts_of(statistics.field_counts),
                ),
                records::records_model(records@),
            ),
        ),
{
    let ghost recs = records::records_model(records@);
    let ghost cx = context(
        recs,
        statistics::counts_of(statistics.object_counts),
        statistics::field_counts_of(statistics.field_counts),
    );
    let sources = Sources {
        definitions: definitions_of(records),
        variants: variants_of(records),
        statistics,
    };
    let mut out: Vec<SchemaRelation> = Vec::new();
    let mut i: usize = 0;
    proof {
        assert(recs.take(0) =~= Seq::empty());
        assert(relations_model(out@) =~= Seq::empty());
    }
    while i < records.len()
        invariant
            sources.holds(cx),
            recs == records::records_model(records@),
            i <= records@.len(),
            relations_model(out@) == relations(cx, recs.take(i as int)),
        decreases records@.len() - i,
    {
        proof {
            assert(recs.take(i + 1).drop_last() =~= recs.take(i as int));
            assert(recs.take(i + 1).last() == records::record_model(records@[i as int]));
        }
        push_record_relations(&sources, &records[i], Ghost(cx), &mut out);
        i = i + 1;
    }
    assert(recs.take(recs.len() as int) =~= recs);
    without_repeats(out)
}

} // verus!
