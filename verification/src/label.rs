//! Labels of fields and array members, and the schemas made of them.

use crate::json;
use crate::json::{get_field, Json, JsonValue};
use crate::kinds;
use crate::kinds::{kinds_of, names_of_kinds, Kinds};
use crate::order;
use crate::path;
use crate::path::{json_path, path_segment, reference_path};
use crate::text;
use crate::text::{join_texts, same_text, sorted_vec};
use vstd::prelude::*;

verus! {

/// A union of labels, given in ascending order: `x?` for one label beside `null`, else the
/// labels with `|` between them.
pub open spec fn union_label(labels: Seq<Seq<char>>) -> Seq<char> {
    if labels.len() == 2 && labels.contains("null"@) {
        if labels[0] == "null"@ {
            labels[1] + "?"@
        } else {
            labels[0] + "?"@
        }
    } else {
        text::joined(labels, "|"@)
    }
}

pub open spec fn array_of(member: Seq<char>) -> Seq<char> {
    "array("@ + member + ")"@
}

/// The labels of the members of an array at `base`, by their kinds; `nested` is the label of
/// the members of the arrays among them.
pub open spec fn member_labels(base: Seq<char>, k: Kinds, nested: Seq<char>) -> Seq<Seq<char>> {
    kinds::if_any(k.boolean, "boolean"@) + kinds::if_any(k.number, "number"@) + kinds::if_any(
        k.string,
        "string"@,
    ) + kinds::if_any(k.null, "null"@) + kinds::if_any(k.object, path::json_file(base))
        + kinds::if_any(k.array, array_of(nested))
}

/// The label of the members of arrays at `base`. `profile` holds the kinds of the members,
/// then those of the members of arrays among them, and so on.
pub open spec fn member_label(base: Seq<char>, profile: Seq<Kinds>) -> Seq<char>
    decreases profile.len(),
{
    if profile.len() == 0 {
        "empty"@
    } else {
        union_label(
            order::sorted_set(
                member_labels(base, profile[0], member_label(base, profile.drop_first())),
            ),
        )
    }
}

/// The label of scalars by their kinds; `partial` where the field is missing somewhere.
pub open spec fn scalar_label(k: Kinds, partial: bool) -> Seq<char> {
    let names = kinds::kind_names(k);
    let label = if names.len() == 2 && names[0] == "null"@ {
        names[1] + "?"@
    } else {
        text::joined(names, "|"@)
    };
    if partial && label != "null"@ && !(label.len() > 0 && label.last() == '?') {
        label + "?"@
    } else {
        label
    }
}

/// The label of a field at `base`: of the kinds of its values, of whether it is missing
/// somewhere, and of the profile of the members of its arrays.
pub open spec fn field_label(base: Seq<char>, k: Kinds, partial: bool, profile: Seq<Kinds>) -> Seq<
    char,
> {
    if k.array {
        union_label(
            order::sorted_set(
                seq![array_of(member_label(base, profile))] + kinds::kind_names(
                    Kinds { array: false, null: false, ..k },
                ),
            ),
        )
    } else if k.object {
        if k.boolean || k.number || k.string {
            text::joined(kinds::kind_names(Kinds { null: false, ..k }), "|"@)
        } else {
            path::json_file(base)
        }
    } else {
        scalar_label(k, partial)
    }
}

/// The members of all arrays among `values`, in their order.
pub open spec fn members(values: Seq<Json>) -> Seq<Json>
    decreases values.len(),
{
    if values.len() == 0 {
        Seq::empty()
    } else if values.last() is Array {
        members(values.drop_last()) + values.last()->Array_0
    } else {
        members(values.drop_last())
    }
}

/// How many values a value is made of, counting through arrays only.
pub open spec fn nodes(j: Json) -> nat
    decreases j,
{
    match j {
        Json::Array(items) => 1 + items_nodes(items),
        _ => 1,
    }
}

pub open spec fn items_nodes(items: Seq<Json>) -> nat
    decreases items,
{
    if items.len() == 0 {
        0
    } else {
        items_nodes(items.drop_last()) + nodes(items.last())
    }
}

proof fn lemma_items_nodes_concat(a: Seq<Json>, b: Seq<Json>)
    ensures
        items_nodes(a + b) == items_nodes(a) + items_nodes(b),
    decreases b.len(),
{
    if b.len() == 0 {
        assert(a + b =~= a);
    } else {
        lemma_items_nodes_concat(a, b.drop_last());
        assert((a + b).drop_last() =~= a + b.drop_last());
        assert((a + b).last() == b.last());
    }
}

pub proof fn lemma_members_nodes(values: Seq<Json>)
    ensures
        items_nodes(members(values)) + values.len() <= items_nodes(values),
    decreases values.len(),
{
    if values.len() > 0 {
        lemma_members_nodes(values.drop_last());
        reveal_with_fuel(nodes, 3);
        reveal_with_fuel(items_nodes, 3);
        if values.last() is Array {
            lemma_items_nodes_concat(members(values.drop_last()), values.last()->Array_0);
        }
    }
}

/// The kinds among `values`, then among the members of their arrays, and so on down to the
/// last level that holds a value.
pub open spec fn profile(values: Seq<Json>) -> Seq<Kinds>
    decreases items_nodes(values),
    via profile_decreases
{
    if values.len() == 0 {
        Seq::empty()
    } else {
        seq![kinds::kinds(values)] + profile(members(values))
    }
}

#[via_fn]
proof fn profile_decreases(values: Seq<Json>) {
    lemma_members_nodes(values);
}

/// The names of the fields of all `objects`, in their order.
pub open spec fn all_names(objects: Seq<Seq<(Seq<char>, Json)>>) -> Seq<Seq<char>>
    decreases objects.len(),
{
    if objects.len() == 0 {
        Seq::empty()
    } else {
        all_names(objects.drop_last()) + json::names(objects.last())
    }
}

/// The values of the field `key`, in the order of the objects that have it.
pub open spec fn values_of(objects: Seq<Seq<(Seq<char>, Json)>>, key: Seq<char>) -> Seq<Json>
    decreases objects.len(),
{
    if objects.len() == 0 {
        Seq::empty()
    } else {
        match json::lookup(objects.last(), key) {
            None => values_of(objects.drop_last(), key),
            Some(v) => values_of(objects.drop_last(), key).push(v),
        }
    }
}

/// The label of values at `base`, out of `total` objects that could have them.
pub open spec fn values_label(base: Seq<char>, values: Seq<Json>, total: int) -> Seq<char> {
    field_label(base, kinds::kinds(values), values.len() < total, profile(members(values)))
}

/// The schema of objects whose fields have paths that start with `prefix`: the label of every
/// field that one of them has, in ascending order of the names.
pub open spec fn schema_of(prefix: Seq<char>, objects: Seq<Seq<(Seq<char>, Json)>>) -> Seq<
    (Seq<char>, Seq<char>),
> {
    let keys = order::sorted_set(all_names(objects));
    Seq::new(
        keys.len(),
        |i: int|
            (
                keys[i],
                values_label(
                    prefix + path::segment(keys[i]),
                    values_of(objects, keys[i]),
                    objects.len() as int,
                ),
            ),
    )
}

pub proof fn lemma_schema_names(prefix: Seq<char>, objects: Seq<Seq<(Seq<char>, Json)>>)
    ensures
        json::schema_names(schema_of(prefix, objects)) == order::sorted_set(all_names(objects)),
        order::ascending(json::schema_names(schema_of(prefix, objects))),
{
    order::lemma_sorted_set(all_names(objects));
    assert(json::schema_names(schema_of(prefix, objects)) =~= order::sorted_set(
        all_names(objects),
    ));
}

fn push_label(labels: &mut Vec<String>, condition: bool, name: &str)
    ensures
        text::models(final(labels)@) == text::models(old(labels)@) + kinds::if_any(condition, name@),
{
    let ghost before = labels@;
    if condition {
        labels.push(name.to_string());
    }
    assert(text::models(labels@) =~= text::models(before) + kinds::if_any(condition, name@));
}

/// Joins the set of `labels` to one label.
pub fn union_member_labels(labels: Vec<String>) -> (r: String)
    ensures
        r@ == union_label(order::sorted_set(text::models(labels@))),
{
    let set = sorted_vec(labels);
    let ghost all = text::models(set@);
    if set.len() == 2 {
        assert(all.len() == 2 && all[0] == set@[0]@ && all[1] == set@[1]@);
        if same_text(set[0].as_str(), "null") {
            assert(all.contains(all[0]));
            let mut label = set[1].clone();
            label.append("?");
            return label;
        }
        if same_text(set[1].as_str(), "null") {
            assert(all.contains(all[1]));
            let mut label = set[0].clone();
            label.append("?");
            return label;
        }
        assert(!all.contains("null"@));
    }
    join_texts(&set, "|")
}

fn array_text(member: &str) -> (r: String)
    ensures
        r@ == array_of(member@),
{
    let mut label = "array(".to_string();
    label.append(member);
    label.append(")");
    label
}

/// The label of array members by the kinds of one level and the label of the next.
pub fn member_label_of_level(path_base: &str, k: Kinds, nested: &str) -> (r: String)
    ensures
        r@ == union_label(order::sorted_set(member_labels(path_base@, k, nested@))),
{
    let mut labels: Vec<String> = Vec::new();
    assert(text::models(labels@) =~= Seq::empty());
    push_label(&mut labels, k.boolean, "boolean");
    push_label(&mut labels, k.number, "number");
    push_label(&mut labels, k.string, "string");
    push_label(&mut labels, k.null, "null");
    push_label(&mut labels, k.object, json_path(path_base).as_str());
    push_label(&mut labels, k.array, array_text(nested).as_str());
    assert(text::models(labels@) =~= member_labels(path_base@, k, nested@));
    union_member_labels(labels)
}

/// The label of array members by the kinds of every level.
pub fn member_label_of_profile(path_base: &str, profile: &Vec<Kinds>) -> (r: String)
    ensures
        r@ == member_label(path_base@, profile@),
{
    let mut label = "empty".to_string();
    let mut i: usize = profile.len();
    assert(profile@.skip(i as int) =~= Seq::empty());
    while i > 0
        invariant
            i <= profile@.len(),
            label@ == member_label(path_base@, profile@.skip(i as int)),
        decreases i,
    {
        i = i - 1;
        assert(profile@.skip(i as int).drop_first() =~= profile@.skip(i + 1));
        assert(profile@.skip(i as int)[0] == profile@[i as int]);
        label = member_label_of_level(path_base, profile[i], label.as_str());
    }
    assert(profile@.skip(0) =~= profile@);
    label
}

fn members_of<'a>(values: &Vec<&'a JsonValue>) -> (r: Vec<&'a JsonValue>)
    ensures
        kinds::refs_model(r@) == members(kinds::refs_model(values@)),
{
    let ghost all = kinds::refs_model(values@);
    let mut out: Vec<&'a JsonValue> = Vec::new();
    let mut i: usize = 0;
    assert(all.take(0) =~= Seq::empty());
    assert(kinds::refs_model(out@) =~= Seq::empty());
    while i < values.len()
        invariant
            all == kinds::refs_model(values@),
            i <= values@.len(),
            kinds::refs_model(out@) == members(all.take(i as int)),
        decreases values@.len() - i,
    {
        assert(all.take(i + 1).drop_last() =~= all.take(i as int));
        assert(all.take(i + 1).last() == json::model(*values@[i as int]));
        if let JsonValue::Array(items) = values[i] {
            let ghost before = kinds::refs_model(out@);
            let mut j: usize = 0;
            proof {
                json::lemma_model_array(*items);
                assert(before + json::items_model(items@).take(0) =~= before);
            }
            while j < items.len()
                invariant
                    j <= items@.len(),
                    kinds::refs_model(out@) == before + json::items_model(items@).take(j as int),
                decreases items@.len() - j,
            {
                let ghost so_far = out@;
                out.push(&items[j]);
                assert(kinds::refs_model(out@) =~= kinds::refs_model(so_far).push(
                    json::model(items@[j as int]),
                ));
                assert(kinds::refs_model(out@) =~= before + json::items_model(items@).take(j + 1));
                j = j + 1;
            }
            assert(json::items_model(items@).take(items@.len() as int) =~= json::items_model(
                items@,
            ));
        }
        i = i + 1;
    }
    assert(all.take(all.len() as int) =~= all);
    out
}

/// The label of the members of arrays at `path_base`.
pub fn array_member_label(path_base: &str, members: &Vec<&JsonValue>) -> (r: String)
    ensures
        r@ == member_label(path_base@, profile(kinds::refs_model(members@))),
    decreases items_nodes(kinds::refs_model(members@)),
{
    let ghost all = kinds::refs_model(members@);
    if members.len() == 0 {
        return "empty".to_string();
    }
    proof {
        lemma_members_nodes(all);
        assert(profile(all).drop_first() =~= profile(self::members(all)));
    }
    let nested = members_of(members);
    let inner = array_member_label(path_base, &nested);
    member_label_of_level(path_base, kinds_of(members), inner.as_str())
}

/// The label of the arrays among `values`.
pub fn array_label(path_base: &str, values: &Vec<&JsonValue>) -> (r: String)
    ensures
        r@ == array_of(member_label(path_base@, profile(members(kinds::refs_model(values@))))),
{
    let inner = members_of(values);
    array_text(array_member_label(path_base, &inner).as_str())
}

fn owned(names: &Vec<&'static str>) -> (r: Vec<String>)
    ensures
        text::models(r@) == kinds::strs_model(names@),
{
    let mut out: Vec<String> = Vec::new();
    let mut i: usize = 0;
    while i < names.len()
        invariant
            i <= names@.len(),
            out@.len() == i,
            forall|j: int| 0 <= j < i ==> (#[trigger] out@[j])@ == names@[j]@,
        decreases names@.len() - i,
    {
        out.push(names[i].to_string());
        i = i + 1;
    }
    assert(text::models(out@) =~= kinds::strs_model(names@));
    out
}

/// The label of scalars by their kinds.
pub fn scalar_label_of_kinds(k: Kinds, partial: bool) -> (r: String)
    ensures
        r@ == scalar_label(k, partial),
{
    let names = names_of_kinds(k);
    assert(names@.len() == kinds::kind_names(k).len());
    assert(forall|i: int|
        0 <= i < names@.len() ==> (#[trigger] names@[i])@ == kinds::kind_names(k)[i]) by {
        assert forall|i: int| 0 <= i < names@.len() implies (#[trigger] names@[i])@
            == kinds::kind_names(k)[i] by {
            assert(kinds::strs_model(names@)[i] == names@[i]@);
        }
    }
    let mut label = if names.len() == 2 && same_text(names[0], "null") {
        let mut label = names[1].to_string();
        label.append("?");
        label
    } else {
        join_texts(&owned(&names), "|")
    };
    if partial && !same_text(label.as_str(), "null") && !text::ends_with_char(label.as_str(), '?') {
        label.append("?");
    }
    label
}

/// The label of the values of a field that `total` objects could have, none of them an array
/// or an object.
pub fn primitive_label(values: &Vec<&JsonValue>, total: usize) -> (r: String)
    ensures
        r@ == scalar_label(kinds::kinds(kinds::refs_model(values@)), values@.len() < total),
{
    scalar_label_of_kinds(kinds_of(values), values.len() < total)
}

/// The label of a field by the kinds of its values; `array` is the label of its arrays.
pub(crate) fn label_of_kinds(path_base: &str, k: Kinds, partial: bool, array: Option<String>, Ghost(
    profile,
): Ghost<Seq<Kinds>>) -> (r: String)
    requires
        k.array ==> (array matches Some(label) && label@ == array_of(
            member_label(path_base@, profile),
        )),
    ensures
        r@ == field_label(path_base@, k, partial, profile),
{
    if k.array {
        let mut labels: Vec<String> = Vec::new();
        if let Some(label) = array {
            labels.push(label);
        }
        let ghost first = text::models(labels@);
        let mut others = owned(&names_of_kinds(Kinds { array: false, null: false, ..k }));
        let ghost rest = text::models(others@);
        labels.append(&mut others);
        assert(text::models(labels@) =~= seq![array_of(member_label(path_base@, profile))] + rest);
        union_member_labels(labels)
    } else if k.object {
        if k.boolean || k.number || k.string {
            join_texts(&owned(&names_of_kinds(Kinds { null: false, ..k })), "|")
        } else {
            json_path(path_base)
        }
    } else {
        scalar_label_of_kinds(k, partial)
    }
}

fn values_at<'a>(objects: &Vec<&'a Vec<(String, JsonValue)>>, key: &str) -> (r: Vec<&'a JsonValue>)
    ensures
        kinds::refs_model(r@) == values_of(objects_model(objects@), key@),
{
    let ghost all = objects_model(objects@);
    let mut out: Vec<&'a JsonValue> = Vec::new();
    let mut i: usize = 0;
    assert(all.take(0) =~= Seq::empty());
    assert(kinds::refs_model(out@) =~= Seq::empty());
    while i < objects.len()
        invariant
            all == objects_model(objects@),
            i <= objects@.len(),
            kinds::refs_model(out@) == values_of(all.take(i as int), key@),
        decreases objects@.len() - i,
    {
        assert(all.take(i + 1).drop_last() =~= all.take(i as int));
        assert(all.take(i + 1).last() == json::fields_model(objects@[i as int]@));
        let ghost before = out@;
        if let Some(v) = get_field(objects[i], key) {
            out.push(v);
            assert(kinds::refs_model(out@) =~= kinds::refs_model(before).push(json::model(*v)));
        }
        i = i + 1;
    }
    assert(all.take(all.len() as int) =~= all);
    out
}

pub open spec fn objects_model(objects: Seq<&Vec<(String, JsonValue)>>) -> Seq<
    Seq<(Seq<char>, Json)>,
> {
    Seq::new(objects.len(), |i: int| json::fields_model(objects[i]@))
}

fn names_at(objects: &Vec<&Vec<(String, JsonValue)>>) -> (r: Vec<String>)
    ensures
        text::models(r@) == all_names(objects_model(objects@)),
{
    let ghost all = objects_model(objects@);
    let mut out: Vec<String> = Vec::new();
    let mut i: usize = 0;
    assert(all.take(0) =~= Seq::empty());
    assert(text::models(out@) =~= Seq::empty());
    while i < objects.len()
        invariant
            all == objects_model(objects@),
            i <= objects@.len(),
            text::models(out@) == all_names(all.take(i as int)),
        decreases objects@.len() - i,
    {
        assert(all.take(i + 1).drop_last() =~= all.take(i as int));
        assert(all.take(i + 1).last() == json::fields_model(objects@[i as int]@));
        let fields = objects[i];
        let ghost names = json::names(json::fields_model(fields@));
        let ghost before = text::models(out@);
        let mut j: usize = 0;
        assert(before + names.take(0) =~= before);
        while j < fields.len()
            invariant
                j <= fields@.len(),
                names == json::names(json::fields_model(fields@)),
                text::models(out@) == before + names.take(j as int),
            decreases fields@.len() - j,
        {
            let ghost so_far = out@;
            out.push(fields[j].0.clone());
            assert(text::models(out@) =~= text::models(so_far).push(fields@[j as int].0@));
            assert(text::models(out@) =~= before + names.take(j + 1));
            j = j + 1;
        }
        assert(names.take(names.len() as int) =~= names);
        i = i + 1;
    }
    assert(all.take(all.len() as int) =~= all);
    out
}

/// The schema of `objects`, whose fields have paths that start with `prefix`.
pub fn schema_for_objects(prefix: &str, objects: &Vec<&Vec<(String, JsonValue)>>) -> (r: Vec<
    (String, String),
>)
    ensures
        json::schema_model(r@) == schema_of(prefix@, objects_model(objects@)),
{
    let keys = sorted_vec(names_at(objects));
    let ghost target = schema_of(prefix@, objects_model(objects@));
    let mut schema: Vec<(String, String)> = Vec::new();
    let mut i: usize = 0;
    assert(json::schema_model(schema@) =~= target.take(0));
    while i < keys.len()
        invariant
            target == schema_of(prefix@, objects_model(objects@)),
            text::models(keys@) == order::sorted_set(all_names(objects_model(objects@))),
            i <= keys@.len(),
            json::schema_model(schema@) == target.take(i as int),
        decreases keys@.len() - i,
    {
        assert(text::models(keys@)[i as int] == keys@[i as int]@);
        let values = values_at(objects, keys[i].as_str());
        let mut base = prefix.to_string();
        base.append(path_segment(keys[i].as_str()).as_str());
        let k = kinds_of(&values);
        let array = if k.array {
            Some(array_label(base.as_str(), &values))
        } else {
            None
        };
        let label = label_of_kinds(
            base.as_str(),
            k,
            values.len() < objects.len(),
            array,
            Ghost(profile(members(kinds::refs_model(values@)))),
        );
        let ghost before = schema@;
        schema.push((keys[i].clone(), label));
        assert(json::schema_model(schema@) =~= json::schema_model(before).push(target[i as int]));
        assert(json::schema_model(schema@) =~= target.take(i + 1));
        i = i + 1;
    }
    assert(target.take(target.len() as int) =~= target);
    schema
}

pub open spec fn field_lists_model(objects: Seq<Vec<(String, JsonValue)>>) -> Seq<
    Seq<(Seq<char>, Json)>,
> {
    Seq::new(objects.len(), |i: int| json::fields_model(objects[i]@))
}

/// The schema of objects at the path of `segments` under `outdir`.
pub fn schema_for_values(
    outdir: &str,
    segments: &Vec<String>,
    objects: &Vec<Vec<(String, JsonValue)>>,
) -> (r: Vec<(String, String)>)
    ensures
        json::schema_model(r@) == schema_of(
            path::child_prefix(outdir@, text::models(segments@)),
            field_lists_model(objects@),
        ),
{
    let mut refs: Vec<&Vec<(String, JsonValue)>> = Vec::new();
    let mut i: usize = 0;
    while i < objects.len()
        invariant
            i <= objects@.len(),
            refs@.len() == i,
            forall|j: int| 0 <= j < i ==> (#[trigger] refs@[j])@ == objects@[j]@,
        decreases objects@.len() - i,
    {
        refs.push(&objects[i]);
        i = i + 1;
    }
    assert(objects_model(refs@) =~= field_lists_model(objects@));
    schema_for_objects(child_prefix_text(outdir, segments).as_str(), &refs)
}

fn child_prefix_text(outdir: &str, segments: &Vec<String>) -> (r: String)
    ensures
        r@ == path::child_prefix(outdir@, text::models(segments@)),
{
    let mut prefix = if segments.len() == 0 {
        outdir.to_string()
    } else {
        reference_path(outdir, segments)
    };
    prefix.append("/");
    prefix
}

/// The label of one value at `path_base`.
pub fn label_for_single_value(path_base: &str, value: &JsonValue) -> (r: String)
    ensures
        r@ == values_label(path_base@, seq![json::model(*value)], 1),
{
    let ghost one = seq![json::model(*value)];
    proof {
        assert(one.drop_last() =~= Seq::empty());
        reveal_with_fuel(kinds::kinds, 2);
        reveal_with_fuel(members, 2);
        assert(Seq::<Json>::empty() + one[0]->Array_0 =~= one[0]->Array_0);
        lemma_single_labels();
    }
    match value {
        JsonValue::Null => "null".to_string(),
        JsonValue::Bool(_) => "boolean".to_string(),
        JsonValue::Number(_) => "number".to_string(),
        JsonValue::Text(_) => "string".to_string(),
        JsonValue::Object(_) => json_path(path_base),
        JsonValue::Array(items) => {
            proof {
                json::lemma_model_array(*items);
                let k = kinds::kinds(one);
                let label = array_of(
                    member_label(path_base@, profile(json::items_model(items@))),
                );
                assert(seq![label] + kinds::kind_names(
                    Kinds { array: false, null: false, ..k },
                ) =~= seq![label]);
                lemma_union_of_one(label);
            }
            array_text(array_member_label_for_single_array(path_base, items).as_str())
        },
    }
}

pub proof fn lemma_union_of_one(label: Seq<char>)
    ensures
        union_label(order::sorted_set(seq![label])) == label,
{
    assert(seq![label].drop_last() =~= Seq::empty());
    reveal_with_fuel(order::sorted_set, 2);
    assert(order::sorted_set(seq![label]) =~= seq![label]);
}

proof fn lemma_single_labels()
    ensures
        scalar_label(Kinds { null: true, ..kinds::no_kinds() }, false) == "null"@,
        scalar_label(Kinds { boolean: true, ..kinds::no_kinds() }, false) == "boolean"@,
        scalar_label(Kinds { number: true, ..kinds::no_kinds() }, false) == "number"@,
        scalar_label(Kinds { string: true, ..kinds::no_kinds() }, false) == "string"@,
{
    assert(kinds::kind_names(Kinds { null: true, ..kinds::no_kinds() }) =~= seq!["null"@]);
    assert(kinds::kind_names(Kinds { boolean: true, ..kinds::no_kinds() }) =~= seq!["boolean"@]);
    assert(kinds::kind_names(Kinds { number: true, ..kinds::no_kinds() }) =~= seq!["number"@]);
    assert(kinds::kind_names(Kinds { string: true, ..kinds::no_kinds() }) =~= seq!["string"@]);
}

/// The label of the members of one array.
pub fn array_member_label_for_single_array(path_base: &str, members: &Vec<JsonValue>) -> (r: String)
    ensures
        r@ == member_label(path_base@, profile(json::items_model(members@))),
{
    let mut refs: Vec<&JsonValue> = Vec::new();
    let mut i: usize = 0;
    while i < members.len()
        invariant
            i <= members@.len(),
            refs@.len() == i,
            forall|j: int| 0 <= j < i ==> json::model(*#[trigger] refs@[j]) == json::model(members@[j]),
        decreases members@.len() - i,
    {
        refs.push(&members[i]);
        i = i + 1;
    }
    assert(kinds::refs_model(refs@) =~= json::items_model(members@));
    array_member_label(path_base, &refs)
}

/// The schema of one object at `path_base`.
pub fn schema_for_single_object(path_base: &str, object: &Vec<(String, JsonValue)>) -> (r: Vec<
    (String, String),
>)
    ensures
        json::schema_model(r@) == schema_of(
            path_base@ + "/"@,
            seq![json::fields_model(object@)],
        ),
{
    let ghost fields = json::fields_model(object@);
    let ghost objects = seq![fields];
    let ghost target = schema_of(path_base@ + "/"@, objects);
    let mut refs: Vec<&Vec<(String, JsonValue)>> = Vec::new();
    refs.push(object);
    proof {
        assert(objects_model(refs@) =~= objects);
        assert(objects.drop_last() =~= Seq::empty());
        reveal_with_fuel(all_names, 2);
        reveal_with_fuel(values_of, 2);
    }
    let keys = sorted_vec(names_at(&refs));
    let mut schema: Vec<(String, String)> = Vec::new();
    let mut i: usize = 0;
    assert(json::schema_model(schema@) =~= target.take(0));
    while i < keys.len()
        invariant
            fields == json::fields_model(object@),
            objects == seq![fields],
            target == schema_of(path_base@ + "/"@, objects),
            text::models(keys@) == order::sorted_set(all_names(objects)),
            i <= keys@.len(),
            json::schema_model(schema@) == target.take(i as int),
        decreases keys@.len() - i,
    {
        let ghost key = keys@[i as int]@;
        proof {
            assert(text::models(keys@)[i as int] == key);
            order::lemma_sorted_set(all_names(objects));
            assert(text::models(keys@).contains(key));
            assert(objects.drop_last() =~= Seq::empty());
            reveal_with_fuel(all_names, 2);
            reveal_with_fuel(values_of, 2);
            assert(Seq::<Seq<char>>::empty() + json::names(fields) =~= json::names(fields));
            json::lemma_lookup_some(fields, key);
        }
        if let Some(value) = get_field(object, keys[i].as_str()) {
            let child_base = path::child_path_base(path_base, keys[i].as_str());
            let label = label_for_single_value(child_base.as_str(), value);
            let ghost before = schema@;
            proof {
                assert(values_of(objects, key) =~= seq![json::model(*value)]);
                assert(path::child(path_base@, key) =~= path_base@ + "/"@ + path::segment(key));
            }
            schema.push((keys[i].clone(), label));
            assert(json::schema_model(schema@) =~= json::schema_model(before).push(target[i as int]));
            assert(json::schema_model(schema@) =~= target.take(i + 1));
        }
        i = i + 1;
    }
    assert(target.take(target.len() as int) =~= target);
    schema
}

} // verus!
