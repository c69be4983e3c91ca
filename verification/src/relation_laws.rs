//! What holds of relations: which fields they come from, and what they say.

use crate::index;
use crate::order;
use crate::order::Ordered;
use crate::records;
use crate::records::Rec;
use crate::relations;
use crate::relations::{Context, Relation, SchemaRelation, Target};
use crate::same_records;
use crate::text;
use vstd::prelude::*;

verus! {

/// The number of objects of a schema, zero if there is none.
pub open spec fn objects_of(objects: Map<Seq<char>, nat>, p: Seq<char>) -> nat {
    match objects.contains_key(p) {
        true => objects[p],
        false => 0,
    }
}

/// How often a schema's objects have a field, zero if never.
pub open spec fn times_of(
    fields: Map<(Seq<char>, Seq<char>), (Seq<char>, nat)>,
    p: Seq<char>,
    name: Seq<char>,
) -> nat {
    match fields.contains_key((p, name)) {
        true => fields[(p, name)].1,
        false => 0,
    }
}

/// A schema with the one field `$refs_mut`, which stands for an array of different items.
pub open spec fn stands_for_items(schema: Seq<(Seq<char>, Seq<char>)>) -> bool {
    schema.len() == 1 && schema[0].0 == "$refs_mut"@
}

/// The last record with this schema path stands for an array of different items.
pub open spec fn varies(recs: Seq<Rec>, p: Seq<char>) -> bool {
    exists|i: int|
        0 <= i < recs.len() && (#[trigger] recs[i]).schema_path == p && stands_for_items(
            recs[i].schema,
        ) && forall|j: int| i < j < recs.len() ==> (#[trigger] recs[j]).schema_path != p
}

proof fn lemma_varies(recs: Seq<Rec>, p: Seq<char>)
    ensures
        ({
            let all = index::last_wins(index::definition_pairs(recs));
            &&& all.contains_key(p) && index::is_container(all[p]) <==> varies(recs, p)
            &&& !all.contains_key(p) <==> forall|j: int|
                0 <= j < recs.len() ==> (#[trigger] recs[j]).schema_path != p
        }),
    decreases recs.len(),
{
    let all = index::last_wins(index::definition_pairs(recs));
    if recs.len() > 0 {
        let d = recs.drop_last();
        let n = recs.len() - 1;
        lemma_varies(d, p);
        assert(index::definition_pairs(recs).drop_last() =~= index::definition_pairs(d));
        assert(index::definition_pairs(recs).last() == (recs[n].schema_path, recs[n].schema));
        assert forall|j: int| 0 <= j < n implies d[j] == #[trigger] recs[j] by {}
        if recs[n].schema_path == p {
            if varies(recs, p) {
                let i = choose|i: int|
                    0 <= i < recs.len() && (#[trigger] recs[i]).schema_path == p
                        && stands_for_items(recs[i].schema) && forall|j: int|
                        i < j < recs.len() ==> (#[trigger] recs[j]).schema_path != p;
                if i < n {
                    assert(recs[n].schema_path != p);
                }
            }
        } else {
            if varies(d, p) {
                let i = choose|i: int|
                    0 <= i < d.len() && (#[trigger] d[i]).schema_path == p && stands_for_items(
                        d[i].schema,
                    ) && forall|j: int| i < j < d.len() ==> (#[trigger] d[j]).schema_path != p;
                assert forall|j: int| i < j < recs.len() implies (#[trigger] recs[j]).schema_path
                    != p by {
                    if j < n {
                        assert(d[j].schema_path != p);
                    }
                }
                assert(recs[i].schema_path == p);
            }
            if varies(recs, p) {
                let i = choose|i: int|
                    0 <= i < recs.len() && (#[trigger] recs[i]).schema_path == p
                        && stands_for_items(recs[i].schema) && forall|j: int|
                        i < j < recs.len() ==> (#[trigger] recs[j]).schema_path != p;
                assert(i < n);
                assert forall|j: int| i < j < d.len() implies (#[trigger] d[j]).schema_path
                    != p by {
                    assert(recs[j].schema_path != p);
                }
                assert(d[i].schema_path == p);
            }
        }
    }
}

/// Some record describes items of the array at `array` under a path of its own.
pub open spec fn is_variant(recs: Seq<Rec>, array: Seq<char>, p: Seq<char>) -> bool {
    exists|i: int|
        0 <= i < recs.len() && (#[trigger] recs[i]).schema_path == p && recs[i].array_parent
            == Some(array) && p != array
}

proof fn lemma_variant(recs: Seq<Rec>, array: Seq<char>, p: Seq<char>)
    ensures
        relations::variant_pairs(recs).contains((array, p)) <==> is_variant(recs, array, p),
    decreases recs.len(),
{
    if recs.len() > 0 {
        let d = recs.drop_last();
        let n = recs.len() - 1;
        lemma_variant(d, array, p);
        let less = relations::variant_pairs(d);
        let all = relations::variant_pairs(recs);
        assert(recs[n] == recs.last());
        assert forall|j: int| 0 <= j < n implies d[j] == #[trigger] recs[j] by {}
        if is_variant(d, array, p) {
            let i = choose|i: int|
                0 <= i < d.len() && (#[trigger] d[i]).schema_path == p && d[i].array_parent == Some(
                    array,
                ) && p != array;
            assert(recs[i].schema_path == p);
            assert(is_variant(recs, array, p));
        }
        if is_variant(recs, array, p) {
            let i = choose|i: int|
                0 <= i < recs.len() && (#[trigger] recs[i]).schema_path == p
                    && recs[i].array_parent == Some(array) && p != array;
            if i < n {
                assert(d[i].schema_path == p);
                assert(is_variant(d, array, p));
            } else {
                assert(all[less.len() as int] == (array, p));
            }
        }
        if less.contains((array, p)) {
            let i = choose|i: int| 0 <= i < less.len() && less[i] == (array, p);
            assert(all[i] == (array, p));
        }
        if all.contains((array, p)) && !less.contains((array, p)) {
            let i = choose|i: int| 0 <= i < all.len() && all[i] == (array, p);
            if i < less.len() {
                assert(less[i] == (array, p));
            }
            assert(recs[n].schema_path == p);
        }
    }
}

/// Where a relation was read: the record, its field, the target of the field's label, and which
/// of the schemas of that target it links.
pub ghost struct Origin {
    pub rec: int,
    pub field: int,
    pub target: int,
    pub row: int,
}

/// The relation was read there.
spec fn read_at(cx: Context, recs: Seq<Rec>, r: Relation, o: Origin) -> bool {
    &&& 0 <= o.rec < recs.len()
    &&& !index::is_container(recs[o.rec].schema)
    &&& 0 <= o.field < recs[o.rec].schema.len()
    &&& relations::field_count(cx, recs[o.rec].schema_path, recs[o.rec].schema[o.field].0) > 0
    &&& 0 <= o.target < relations::field_targets(recs[o.rec].schema[o.field].1).len()
    &&& ({
        let f = recs[o.rec].schema[o.field];
        let rows = relations::target_relations(
            cx,
            recs[o.rec].schema_path,
            f.0,
            f.1,
            relations::field_targets(f.1)[o.target],
        );
        0 <= o.row < rows.len() && rows[o.row] == r
    })
}

proof fn lemma_target_row(
    cx: Context,
    p: Seq<char>,
    name: Seq<char>,
    l: Seq<char>,
    targets: Seq<Target>,
    i: int,
) -> (o: (int, int))
    requires
        0 <= i < relations::targets_relations(cx, p, name, l, targets).len(),
    ensures
        0 <= o.0 < targets.len(),
        0 <= o.1 < relations::target_relations(cx, p, name, l, targets[o.0]).len(),
        relations::target_relations(cx, p, name, l, targets[o.0])[o.1]
            == relations::targets_relations(cx, p, name, l, targets)[i],
    decreases targets.len(),
{
    let n = targets.len() - 1;
    let less = relations::targets_relations(cx, p, name, l, targets.drop_last());
    if i < less.len() {
        let o = lemma_target_row(cx, p, name, l, targets.drop_last(), i);
        assert(targets.drop_last()[o.0] == targets[o.0]);
        o
    } else {
        (n, i - less.len())
    }
}

proof fn lemma_field_row(
    cx: Context,
    p: Seq<char>,
    schema: Seq<(Seq<char>, Seq<char>)>,
    i: int,
) -> (o: (int, int, int))
    requires
        0 <= i < relations::fields_relations(cx, p, schema).len(),
    ensures
        0 <= o.0 < schema.len(),
        relations::field_count(cx, p, schema[o.0].0) > 0,
        0 <= o.1 < relations::field_targets(schema[o.0].1).len(),
        ({
            let rows = relations::target_relations(
                cx,
                p,
                schema[o.0].0,
                schema[o.0].1,
                relations::field_targets(schema[o.0].1)[o.1],
            );
            0 <= o.2 < rows.len() && rows[o.2] == relations::fields_relations(cx, p, schema)[i]
        }),
    decreases schema.len(),
{
    let n = schema.len() - 1;
    let less = relations::fields_relations(cx, p, schema.drop_last());
    if i < less.len() {
        let o = lemma_field_row(cx, p, schema.drop_last(), i);
        assert(schema.drop_last()[o.0] == schema[o.0]);
        o
    } else {
        let (name, l) = schema[n];
        let targets = relations::field_targets(l);
        let o = lemma_target_row(cx, p, name, l, targets, i - less.len());
        (n, o.0, o.1)
    }
}

proof fn lemma_read(cx: Context, recs: Seq<Rec>, i: int) -> (o: Origin)
    requires
        0 <= i < relations::relations(cx, recs).len(),
    ensures
        read_at(cx, recs, relations::relations(cx, recs)[i], o),
    decreases recs.len(),
{
    let n = recs.len() - 1;
    let less = relations::relations(cx, recs.drop_last());
    if i < less.len() {
        let o = lemma_read(cx, recs.drop_last(), i);
        assert(recs.drop_last()[o.rec] == recs[o.rec]);
        o
    } else {
        let o = lemma_field_row(cx, recs[n].schema_path, recs[n].schema, i - less.len());
        Origin { rec: n, field: o.0, target: o.1, row: o.2 }
    }
}

proof fn lemma_target_rows(
    cx: Context,
    p: Seq<char>,
    name: Seq<char>,
    l: Seq<char>,
    targets: Seq<Target>,
    t: int,
    row: int,
)
    requires
        0 <= t < targets.len(),
        0 <= row < relations::target_relations(cx, p, name, l, targets[t]).len(),
    ensures
        relations::targets_relations(cx, p, name, l, targets).contains(
            relations::target_relations(cx, p, name, l, targets[t])[row],
        ),
    decreases targets.len(),
{
    let n = targets.len() - 1;
    let d = targets.drop_last();
    let own = relations::target_relations(cx, p, name, l, targets[n]);
    let less = relations::targets_relations(cx, p, name, l, d);
    let r = relations::target_relations(cx, p, name, l, targets[t])[row];
    same_records::lemma_concat_contains(less, own, r);
    if t < n {
        assert(d[t] == targets[t]);
        lemma_target_rows(cx, p, name, l, d, t, row);
    } else {
        assert(own[row] == r);
    }
}

proof fn lemma_field_rows(
    cx: Context,
    p: Seq<char>,
    schema: Seq<(Seq<char>, Seq<char>)>,
    f: int,
    r: Relation,
)
    requires
        0 <= f < schema.len(),
        relations::field_count(cx, p, schema[f].0) > 0,
        relations::targets_relations(
            cx,
            p,
            schema[f].0,
            schema[f].1,
            relations::field_targets(schema[f].1),
        ).contains(r),
    ensures
        relations::fields_relations(cx, p, schema).contains(r),
    decreases schema.len(),
{
    let n = schema.len() - 1;
    let d = schema.drop_last();
    let less = relations::fields_relations(cx, p, d);
    let own = if relations::field_count(cx, p, schema[n].0) == 0 {
        Seq::empty()
    } else {
        relations::targets_relations(
            cx,
            p,
            schema[n].0,
            schema[n].1,
            relations::field_targets(schema[n].1),
        )
    };
    assert(relations::fields_relations(cx, p, schema) == less + own);
    same_records::lemma_concat_contains(less, own, r);
    if f < n {
        assert(d[f] == schema[f]);
        lemma_field_rows(cx, p, d, f, r);
    }
}

proof fn lemma_written(cx: Context, recs: Seq<Rec>, r: Relation, o: Origin)
    requires
        read_at(cx, recs, r, o),
    ensures
        relations::relations(cx, recs).contains(r),
    decreases recs.len(),
{
    let n = recs.len() - 1;
    let d = recs.drop_last();
    same_records::lemma_concat_contains(
        relations::relations(cx, d),
        relations::record_relations(cx, recs[n]),
        r,
    );
    if o.rec < n {
        assert(d[o.rec] == recs[o.rec]);
        lemma_written(cx, d, r, o);
    } else {
        let f = recs[n].schema[o.field];
        let targets = relations::field_targets(f.1);
        lemma_target_rows(cx, recs[n].schema_path, f.0, f.1, targets, o.target, o.row);
        lemma_field_rows(cx, recs[n].schema_path, recs[n].schema, o.field, r);
    }
}

proof fn lemma_unique(rows: Seq<Relation>)
    ensures
        forall|i: int|
            0 <= i < relations::unique_rows(rows).len() ==> rows.contains(
                #[trigger] relations::unique_rows(rows)[i],
            ),
        forall|i: int|
            0 <= i < rows.len() ==> relations::unique_rows(rows).contains(#[trigger] rows[i])
                || relations::listed(relations::unique_rows(rows), rows[i]),
        forall|i: int, j: int|
            0 <= i < j < relations::unique_rows(rows).len() ==> !relations::same_row(
                #[trigger] relations::unique_rows(rows)[i],
                #[trigger] relations::unique_rows(rows)[j],
            ),
    decreases rows.len(),
{
    if rows.len() > 0 {
        let d = rows.drop_last();
        let n = rows.len() - 1;
        lemma_unique(d);
        let kept = relations::unique_rows(d);
        let all = relations::unique_rows(rows);
        assert forall|i: int| 0 <= i < all.len() implies rows.contains(#[trigger] all[i]) by {
            if i < kept.len() {
                assert(kept[i] == all[i]);
                assert(d.contains(kept[i]));
                let j = choose|j: int| 0 <= j < d.len() && d[j] == kept[i];
                assert(rows[j] == all[i]);
            } else {
                assert(rows[n] == all[i]);
            }
        }
        assert forall|i: int| 0 <= i < rows.len() implies all.contains(#[trigger] rows[i])
            || relations::listed(all, rows[i]) by {
            if i < n {
                assert(d[i] == rows[i]);
                if kept.contains(d[i]) {
                    let j = choose|j: int| 0 <= j < kept.len() && kept[j] == d[i];
                    assert(all[j] == rows[i]);
                } else {
                    let j = choose|j: int|
                        0 <= j < kept.len() && relations::same_row(#[trigger] kept[j], d[i]);
                    assert(all[j] == kept[j]);
                }
            } else if !relations::listed(kept, rows[n]) {
                assert(all[kept.len() as int] == rows[n]);
            }
        }
        assert forall|i: int, j: int| 0 <= i < j < all.len() implies !relations::same_row(
            #[trigger] all[i],
            #[trigger] all[j],
        ) by {
            assert(all[i] == kept[i]);
            if j < kept.len() {
                assert(all[j] == kept[j]);
            }
        }
    }
}

/// Every relation tells the counts of its two schemas and of its field. The field is required
/// exactly if there are objects and each of them has it.
pub proof fn law_relations_tell_counts(
    recs: Seq<Rec>,
    objects: Map<Seq<char>, nat>,
    fields: Map<(Seq<char>, Seq<char>), (Seq<char>, nat)>,
    rows: Seq<SchemaRelation>,
    i: int,
)
    requires
        relations::relations_model(rows) == relations::unique_rows(
            relations::relations(relations::context(recs, objects, fields), recs),
        ),
        0 <= i < rows.len(),
    ensures
        ({
            let r = rows[i];
            &&& r.parent_object_count == objects_of(objects, r.parent_schema_path@)
            &&& r.child_object_count == objects_of(objects, r.child_schema_path@)
            &&& r.field_count == times_of(fields, r.parent_schema_path@, r.field_name@)
            &&& r.field_count > 0
            &&& r.required <==> r.parent_object_count > 0 && r.field_count == r.parent_object_count
        }),
{
    lemma_origin(recs, objects, fields, rows, i);
}

proof fn lemma_origin(
    recs: Seq<Rec>,
    objects: Map<Seq<char>, nat>,
    fields: Map<(Seq<char>, Seq<char>), (Seq<char>, nat)>,
    rows: Seq<SchemaRelation>,
    i: int,
) -> (o: Origin)
    requires
        relations::relations_model(rows) == relations::unique_rows(
            relations::relations(relations::context(recs, objects, fields), recs),
        ),
        0 <= i < rows.len(),
    ensures
        read_at(
            relations::context(recs, objects, fields),
            recs,
            relations::relation_model(rows[i]),
            o,
        ),
{
    let cx = relations::context(recs, objects, fields);
    let all = relations::relations(cx, recs);
    let models = relations::relations_model(rows);
    lemma_unique(all);
    assert(models[i] == relations::relation_model(rows[i]));
    assert(all.contains(models[i]));
    let k = choose|k: int| 0 <= k < all.len() && all[k] == models[i];
    lemma_read(cx, recs, k)
}

/// A link to an object stands with the object that holds the field: it owns the key, and leads
/// from it to the object in the field. A link from an item of an array leads from the item,
/// which owns the key, to the object that holds the array; the array is named on the way. In
/// arrays of arrays it is no candidate for a foreign key.
pub proof fn law_relations_lead_to_the_owner(
    recs: Seq<Rec>,
    objects: Map<Seq<char>, nat>,
    fields: Map<(Seq<char>, Seq<char>), (Seq<char>, nat)>,
    rows: Seq<SchemaRelation>,
    i: int,
)
    requires
        relations::relations_model(rows) == relations::unique_rows(
            relations::relations(relations::context(recs, objects, fields), recs),
        ),
        0 <= i < rows.len(),
    ensures
        ({
            let r = rows[i];
            &&& r.nested_array_depth == 0 ==> {
                &&& r.relation_kind@ == "object_ref"@
                &&& r.from_schema_path@ == r.parent_schema_path@
                &&& r.to_schema_path@ == r.child_schema_path@
                &&& r.fk_owner@ == "parent"@
                &&& r.fk_candidate
                &&& r.via_schema_path is None
                &&& r.via_array_path is None
                &&& r.required ==> r.cardinality@ == "one_to_one_candidate"@
                &&& !r.required ==> r.cardinality@ == "zero_or_one_to_one_candidate"@
                &&& !varies(recs, r.child_schema_path@)
            }
            &&& r.nested_array_depth >= 1 ==> {
                &&& r.from_schema_path@ == r.child_schema_path@
                &&& r.to_schema_path@ == r.parent_schema_path@
                &&& r.fk_owner@ == "child"@
                &&& r.via_schema_path is Some
                &&& r.via_array_path is Some
                &&& r.via_schema_path->0@ == r.via_array_path->0@
                &&& !varies(recs, r.via_array_path->0@) ==> r.child_schema_path@
                    == r.via_array_path->0@
                &&& varies(recs, r.via_array_path->0@) ==> is_variant(
                    recs,
                    r.via_array_path->0@,
                    r.child_schema_path@,
                )
            }
            &&& r.nested_array_depth == 1 ==> {
                &&& r.fk_candidate
                &&& r.cardinality@ == "many_to_one"@
                &&& r.relation_kind@ == (if varies(recs, r.via_array_path->0@) {
                    "heterogeneous_array_item"@
                } else {
                    "array_item"@
                })
            }
            &&& r.nested_array_depth >= 2 ==> {
                &&& !r.fk_candidate
                &&& r.cardinality@ == "nested_many_to_one_marker"@
                &&& r.relation_kind@ == "nested_array_item"@
            }
        }),
{
    let cx = relations::context(recs, objects, fields);
    let o = lemma_origin(recs, objects, fields, rows, i);
    let r = relations::relation_model(rows[i]);
    let f = recs[o.rec].schema[o.field];
    let t = relations::field_targets(f.1)[o.target];
    lemma_varies(recs, t.path);
    if t.depth > 0 && relations::heterogeneous(cx, t.path) {
        let found = order::under(cx.variants, t.path);
        order::lemma_sorted_set(found);
        let children = relations::item_schemas(cx, t);
        assert(children.contains(children[o.row]));
        assert(found.contains(children[o.row]));
        same_records::lemma_under_contains(cx.variants, t.path, children[o.row]);
        lemma_variant(recs, t.path, children[o.row]);
    }
}

/// Every relation comes from a field of a schema that describes objects: it has the name and the
/// label of the field, and a target of that label.
pub proof fn law_relations_come_from_fields(
    recs: Seq<Rec>,
    objects: Map<Seq<char>, nat>,
    fields: Map<(Seq<char>, Seq<char>), (Seq<char>, nat)>,
    rows: Seq<SchemaRelation>,
    i: int,
) -> (o: Origin)
    requires
        relations::relations_model(rows) == relations::unique_rows(
            relations::relations(relations::context(recs, objects, fields), recs),
        ),
        0 <= i < rows.len(),
    ensures
        0 <= o.rec < recs.len(),
        !stands_for_items(recs[o.rec].schema),
        recs[o.rec].schema_path == rows[i].parent_schema_path@,
        0 <= o.field < recs[o.rec].schema.len(),
        recs[o.rec].schema[o.field] == (rows[i].field_name@, rows[i].field_type@),
        0 <= o.target < relations::field_targets(rows[i].field_type@).len(),
        ({
            let t = relations::field_targets(rows[i].field_type@)[o.target];
            &&& t.mixed == rows[i].mixed
            &&& t.depth == rows[i].nested_array_depth
            &&& t.depth == 0 ==> t.path == rows[i].child_schema_path@
            &&& t.depth > 0 ==> rows[i].via_array_path is Some && t.path
                == rows[i].via_array_path->0@
        }),
{
    lemma_origin(recs, objects, fields, rows, i)
}

/// Every target of the label of a field that some object has is linked, to the schema of the
/// object, or to each schema of the items of the array. (A field with an array of different
/// items is no link to one object.)
pub proof fn law_every_target_is_linked(
    recs: Seq<Rec>,
    objects: Map<Seq<char>, nat>,
    fields: Map<(Seq<char>, Seq<char>), (Seq<char>, nat)>,
    rows: Seq<SchemaRelation>,
    o: Origin,
    child: Seq<char>,
) -> (i: int)
    requires
        relations::relations_model(rows) == relations::unique_rows(
            relations::relations(relations::context(recs, objects, fields), recs),
        ),
        0 <= o.rec < recs.len(),
        !stands_for_items(recs[o.rec].schema),
        0 <= o.field < recs[o.rec].schema.len(),
        times_of(fields, recs[o.rec].schema_path, recs[o.rec].schema[o.field].0) > 0,
        0 <= o.target < relations::field_targets(recs[o.rec].schema[o.field].1).len(),
        ({
            let t = relations::field_targets(recs[o.rec].schema[o.field].1)[o.target];
            &&& varies(recs, t.path) ==> t.depth > 0 && is_variant(recs, t.path, child)
            &&& !varies(recs, t.path) ==> child == t.path
        }),
    ensures
        0 <= i < rows.len(),
        rows[i].parent_schema_path@ == recs[o.rec].schema_path,
        rows[i].child_schema_path@ == child,
        rows[i].field_name@ == recs[o.rec].schema[o.field].0,
        rows[i].field_type@ == recs[o.rec].schema[o.field].1,
        ({
            let t = relations::field_targets(recs[o.rec].schema[o.field].1)[o.target];
            &&& t.depth == 0 ==> rows[i].relation_kind@ == "object_ref"@ && rows[i].mixed == t.mixed
            &&& t.depth == 1 ==> rows[i].relation_kind@ == "array_item"@ || rows[i].relation_kind@
                == "heterogeneous_array_item"@
            &&& t.depth >= 2 ==> rows[i].relation_kind@ == "nested_array_item"@
            &&& t.depth > 0 ==> rows[i].via_array_path is Some && rows[i].via_array_path->0@
                == t.path
        }),
{
    let cx = relations::context(recs, objects, fields);
    let p = recs[o.rec].schema_path;
    let f = recs[o.rec].schema[o.field];
    let t = relations::field_targets(f.1)[o.target];
    let all = relations::relations(cx, recs);
    let models = relations::relations_model(rows);
    let found = relations::target_relations(cx, p, f.0, f.1, t);
    lemma_varies(recs, t.path);
    let row = if t.depth == 0 {
        0int
    } else if relations::heterogeneous(cx, t.path) {
        let under = order::under(cx.variants, t.path);
        let children = relations::item_schemas(cx, t);
        lemma_variant(recs, t.path, child);
        same_records::lemma_under_contains(cx.variants, t.path, child);
        order::lemma_sorted_set(under);
        assert(children.contains(child));
        choose|k: int| 0 <= k < children.len() && children[k] == child
    } else {
        0int
    };
    let r = found[row];
    assert(r.child == child);
    lemma_written(cx, recs, r, Origin { row, ..o });
    lemma_unique(all);
    let k = choose|k: int| 0 <= k < all.len() && all[k] == r;
    assert(all[k] == r);
    lemma_kinds_of_links();
    if models.contains(r) {
        let i = choose|i: int| 0 <= i < models.len() && models[i] == r;
        assert(relations::relation_model(rows[i]) == r);
        i
    } else {
        let i = choose|i: int| 0 <= i < models.len() && relations::same_row(#[trigger] models[i], r);
        assert(models[i] == relations::relation_model(rows[i]));
        lemma_unique(all);
        law_relations_lead_to_the_owner(recs, objects, fields, rows, i);
        i
    }
}

pub proof fn lemma_kinds_of_links()
    ensures
        "object_ref"@ != "array_item"@,
        "object_ref"@ != "heterogeneous_array_item"@,
        "object_ref"@ != "nested_array_item"@,
{
    reveal_strlit("object_ref");
    reveal_strlit("array_item");
    reveal_strlit("heterogeneous_array_item");
    reveal_strlit("nested_array_item");
    assert("object_ref"@[0] == 'o');
    assert("array_item"@[0] == 'a');
    assert("heterogeneous_array_item"@[0] == 'h');
    assert("nested_array_item"@[0] == 'n');
}

/// No link by way of an array is listed twice.
pub proof fn law_item_links_are_listed_once(
    recs: Seq<Rec>,
    objects: Map<Seq<char>, nat>,
    fields: Map<(Seq<char>, Seq<char>), (Seq<char>, nat)>,
    rows: Seq<SchemaRelation>,
    i: int,
    j: int,
)
    requires
        relations::relations_model(rows) == relations::unique_rows(
            relations::relations(relations::context(recs, objects, fields), recs),
        ),
        0 <= i < j < rows.len(),
        rows[i].via_schema_path is Some,
    ensures
        rows[i].from_schema_path@ != rows[j].from_schema_path@ || rows[i].to_schema_path@
            != rows[j].to_schema_path@ || rows[i].relation_kind@ != rows[j].relation_kind@
            || rows[i].field_name@ != rows[j].field_name@ || rows[i].field_type@
            != rows[j].field_type@ || records::text_option(rows[i].via_array_path)
            != records::text_option(rows[j].via_array_path),
{
    let cx = relations::context(recs, objects, fields);
    let all = relations::relations(cx, recs);
    let models = relations::relations_model(rows);
    lemma_unique(all);
    assert(models[i] == relations::relation_model(rows[i]));
    assert(models[j] == relations::relation_model(rows[j]));
    assert(!relations::same_row(models[i], models[j]));
    lemma_origin(recs, objects, fields, rows, i);
    lemma_origin(recs, objects, fields, rows, j);
}

/// Of relations that repeat each other the first stays: one more leaves those that were kept as
/// they are, and is kept behind them unless it repeats one.
pub proof fn law_the_first_of_repeated_links_stays(rows: Seq<Relation>, r: Relation)
    ensures
        ({
            let kept = relations::unique_rows(rows);
            let more = relations::unique_rows(rows.push(r));
            &&& more == kept || more == kept.push(r)
            &&& r.via_array is None || (forall|i: int|
                0 <= i < kept.len() ==> (#[trigger] kept[i]).from != r.from || kept[i].to != r.to
                    || kept[i].field_name != r.field_name) ==> more == kept.push(r)
        }),
{
    assert(rows.push(r).drop_last() =~= rows);
    assert(rows.push(r).last() == r);
}

/// The links from one field to one target stand in ascending order of the schemas that they link.
pub proof fn law_links_of_a_target_stand_in_order(
    cx: Context,
    p: Seq<char>,
    name: Seq<char>,
    l: Seq<char>,
    t: Target,
    i: int,
    j: int,
)
    requires
        0 <= i < j < relations::target_relations(cx, p, name, l, t).len(),
    ensures
        relations::target_relations(cx, p, name, l, t)[i].child.before(
            relations::target_relations(cx, p, name, l, t)[j].child,
        ),
{
    let found = order::under(cx.variants, t.path);
    order::lemma_sorted_set(found);
    let children = relations::item_schemas(cx, t);
    assert(children[i].before(children[j]));
}

/// The relations of records stand in the order of the records, each record's in the order of its
/// fields.
pub proof fn law_relations_stand_in_order(
    cx: Context,
    a: Seq<Rec>,
    b: Seq<Rec>,
    p: Seq<char>,
    s: Seq<(Seq<char>, Seq<char>)>,
    t: Seq<(Seq<char>, Seq<char>)>,
)
    ensures
        relations::relations(cx, a + b) == relations::relations(cx, a) + relations::relations(cx, b),
        relations::fields_relations(cx, p, s + t) == relations::fields_relations(cx, p, s)
            + relations::fields_relations(cx, p, t),
    decreases b.len() + t.len(),
{
    if b.len() == 0 {
        assert(a + b =~= a);
        assert(relations::relations(cx, a) + relations::relations(cx, b) =~= relations::relations(
            cx,
            a,
        ));
    } else {
        law_relations_stand_in_order(cx, a, b.drop_last(), p, s, t);
        assert((a + b).drop_last() =~= a + b.drop_last());
        assert((a + b).last() == b.last());
        assert(relations::relations(cx, a + b) =~= relations::relations(cx, a)
            + relations::relations(cx, b));
    }
    if t.len() == 0 {
        assert(s + t =~= s);
        assert(relations::fields_relations(cx, p, s) + relations::fields_relations(cx, p, t)
            =~= relations::fields_relations(cx, p, s));
    } else {
        law_relations_stand_in_order(cx, a, b, p, s, t.drop_last());
        assert((s + t).drop_last() =~= s + t.drop_last());
        assert((s + t).last() == t.last());
        assert(relations::fields_relations(cx, p, s + t) =~= relations::fields_relations(cx, p, s)
            + relations::fields_relations(cx, p, t));
    }
}

/// The parts of a label with `|` between them are the label, and no part has parts of its own.
/// Labels with a `|` between them, the first with its brackets closed, have the parts of both.
pub proof fn law_parts_of_a_label(l: Seq<char>, more: Seq<char>, i: int)
    ensures
        text::joined(relations::split_union(l), "|"@) == l,
        0 <= i < relations::split_union(l).len() ==> relations::split_union(
            relations::split_union(l)[i],
        ) == seq![relations::split_union(l)[i]],
        relations::split_state(l).depth == 0 ==> relations::split_union(l + seq!['|'] + more)
            == relations::split_union(l) + relations::split_union(more),
{
    lemma_joined_parts(l);
    lemma_own_parts(l);
    let parts = relations::split_union(l);
    if 0 <= i < parts.len() {
        let p = parts[i];
        let s = relations::split_state(l);
        if i < s.parts.len() {
            assert(p == s.parts[i]);
        } else {
            assert(p == s.current);
        }
        assert(relations::split_state(p).parts.len() == 0);
        assert(relations::split_union(p) =~= seq![p]);
    }
    if relations::split_state(l).depth == 0 {
        lemma_split_more(l, more);
        assert(relations::split_union(l + seq!['|'] + more) =~= relations::split_union(l)
            + relations::split_union(more));
    }
}

proof fn lemma_joined_parts(l: Seq<char>)
    ensures
        text::joined(relations::split_union(l), "|"@) == l,
    decreases l.len(),
{
    let s = relations::split_state(l);
    let parts = relations::split_union(l);
    reveal_strlit("|");
    if l.len() > 0 {
        let d = l.drop_last();
        let c = l.last();
        lemma_joined_parts(d);
        let before = relations::split_state(d);
        let less = relations::split_union(d);
        assert(l =~= d.push(c));
        assert(less.drop_last() =~= before.parts);
        assert(parts.drop_last() =~= s.parts);
        if c == '|' && before.depth == 0 {
            assert(s.parts =~= less);
            assert(text::joined(parts, "|"@) =~= text::joined(less, "|"@) + "|"@);
            assert(text::joined(parts, "|"@) =~= l);
        } else {
            assert(s.parts == before.parts);
            assert(s.current == before.current.push(c));
            if before.parts.len() == 0 {
                assert(text::joined(less, "|"@) == before.current);
                assert(text::joined(parts, "|"@) == s.current);
            } else {
                assert(text::joined(less, "|"@) == text::joined(before.parts, "|"@) + "|"@
                    + before.current);
                assert(text::joined(parts, "|"@) =~= text::joined(less, "|"@).push(c));
            }
        }
    } else {
        assert(parts =~= seq![Seq::<char>::empty()]);
        assert(text::joined(parts, "|"@) =~= l);
    }
}

/// Each part is one part, and the part being read has the brackets open that the label has.
proof fn lemma_own_parts(l: Seq<char>)
    ensures
        forall|i: int|
            0 <= i < relations::split_state(l).parts.len() ==> {
                let p = #[trigger] relations::split_state(l).parts[i];
                relations::split_state(p).parts.len() == 0 && relations::split_state(p).current == p
            },
        ({
            let s = relations::split_state(l);
            let own = relations::split_state(s.current);
            own.parts.len() == 0 && own.current == s.current && own.depth == s.depth
        }),
    decreases l.len(),
{
    if l.len() > 0 {
        let d = l.drop_last();
        lemma_own_parts(d);
        let before = relations::split_state(d);
        let s = relations::split_state(l);
        let c = l.last();
        if c == '|' && before.depth == 0 {
            assert forall|i: int| 0 <= i < s.parts.len() implies {
                let p = #[trigger] s.parts[i];
                relations::split_state(p).parts.len() == 0 && relations::split_state(p).current == p
            } by {
                if i < before.parts.len() {
                    assert(s.parts[i] == before.parts[i]);
                }
            }
        } else {
            assert(s.current.drop_last() =~= before.current);
            assert(s.current.last() == c);
            assert(s.parts == before.parts);
        }
    }
}

proof fn lemma_split_more(l: Seq<char>, more: Seq<char>)
    requires
        relations::split_state(l).depth == 0,
    ensures
        ({
            let a = relations::split_state(l);
            let b = relations::split_state(more);
            let s = relations::split_state(l + seq!['|'] + more);
            &&& s.parts == a.parts.push(a.current) + b.parts
            &&& s.current == b.current
            &&& s.depth == b.depth
        }),
    decreases more.len(),
{
    let t = l + seq!['|'] + more;
    let a = relations::split_state(l);
    if more.len() == 0 {
        assert(t.drop_last() =~= l);
        assert(t.last() == '|');
        assert(relations::split_state(t).parts =~= a.parts.push(a.current)
            + relations::split_state(more).parts);
    } else {
        let d = more.drop_last();
        lemma_split_more(l, d);
        assert(t.drop_last() =~= l + seq!['|'] + d);
        assert(t.last() == more.last());
        assert(relations::split_state(t).parts =~= a.parts.push(a.current)
            + relations::split_state(more).parts);
    }
}

/// What a part of a label leads to: a part that ends with `.json` to that file, an array to what
/// its members lead to, one array deeper, and anything else to nothing. `mixed` says that
/// there are other parts.
pub open spec fn part_leads_to(
    part: Seq<char>,
    mixed: bool,
    depth: nat,
    optional: bool,
    t: Target,
) -> bool {
    ||| {
        &&& !(exists|inner: Seq<char>| part == #[trigger] in_array(inner))
        &&& text::has_suffix(part, seq!['.', 'j', 's', 'o', 'n'])
        &&& t == Target { path: part, depth, mixed, optional }
    }
    ||| exists|inner: Seq<char>|
        part == #[trigger] in_array(inner) && leads_deeper(inner, mixed, depth, optional, t)
}

/// The label of an array with this label of its members.
pub open spec fn in_array(inner: Seq<char>) -> Seq<char> {
    seq!['a', 'r', 'r', 'a', 'y', '('] + inner + seq![')']
}

pub open spec fn leads_deeper(
    inner: Seq<char>,
    mixed: bool,
    depth: nat,
    optional: bool,
    t: Target,
) -> bool {
    exists|u: Target| #[trigger]
        relations::label_targets(inner, depth + 1, optional).contains(u) && t == Target {
            mixed: u.mixed || mixed,
            ..u
        }
}

/// The targets of a label are what its parts lead to, and are mixed if there are several parts.
pub proof fn law_targets_of_a_label(l: Seq<char>, depth: nat, optional: bool, t: Target)
    ensures
        relations::label_targets(l, depth, optional).contains(t) <==> exists|i: int|
            0 <= i < relations::split_union(l).len() && part_leads_to(
                text::trimmed(#[trigger] relations::split_union(l)[i]),
                relations::split_union(l).len() > 1,
                depth,
                optional,
                t,
            ),
{
    let parts = relations::split_union(l);
    assert forall|i: int| 0 <= i < parts.len() implies (#[trigger] parts[i]).len() <= l.len() by {
        lemma_part_len(l);
        let s = relations::split_state(l);
        if i < s.parts.len() {
            assert(parts[i] == s.parts[i]);
        } else {
            assert(parts[i] == s.current);
        }
    }
    lemma_parts_lead(parts, parts.len() > 1, depth, optional, l.len(), t);
}

proof fn lemma_part_len(l: Seq<char>)
    ensures
        relations::split_state(l).current.len() <= l.len(),
        forall|i: int|
            0 <= i < relations::split_state(l).parts.len() ==> (#[trigger] relations::split_state(
                l,
            ).parts[i]).len() <= l.len(),
    decreases l.len(),
{
    if l.len() > 0 {
        lemma_part_len(l.drop_last());
    }
}

proof fn lemma_in_array(part: Seq<char>)
    ensures
        relations::inner_label(part) is Some <==> exists|inner: Seq<char>|
            part == #[trigger] in_array(inner),
        forall|inner: Seq<char>|
            part == #[trigger] in_array(inner) ==> relations::inner_label(part) == Some(inner),
        relations::inner_label(part) is Some ==> part == in_array(relations::inner_label(part)->0),
{
    reveal_strlit("array(");
    reveal_strlit(")");
    assert("array("@ =~= seq!['a', 'r', 'r', 'a', 'y', '(']);
    assert(")"@ =~= seq![')']);
    assert forall|inner: Seq<char>| part == #[trigger] in_array(inner) implies
        relations::inner_label(part) == Some(inner) by {
        assert(part.take(6) =~= "array("@);
        assert(part.skip(part.len() - 1) =~= ")"@);
        assert(part.subrange(6, part.len() - 1) =~= inner);
    }
    if relations::inner_label(part) is Some {
        let inner = relations::inner_label(part)->0;
        assert(part.take(6)[5] == '(');
        assert(part.skip(part.len() - 1)[0] == ')');
        assert(part.len() >= 7);
        assert(part.take(6)[5] == part[5]);
        assert(part.skip(part.len() - 1)[0] == part[part.len() - 1]);
        assert(part =~= part.take(6) + part.subrange(6, part.len() - 1) + part.skip(
            part.len() - 1,
        ));
        assert(part == in_array(inner));
    }
}

proof fn lemma_parts_lead(
    parts: Seq<Seq<char>>,
    mixed: bool,
    depth: nat,
    optional: bool,
    length: nat,
    t: Target,
)
    requires
        forall|i: int| 0 <= i < parts.len() ==> (#[trigger] parts[i]).len() <= length,
    ensures
        relations::parts_targets(parts, mixed, depth, optional, length).contains(t) <==> exists|
            i: int,
        |
            0 <= i < parts.len() && part_leads_to(
                text::trimmed(#[trigger] parts[i]),
                mixed,
                depth,
                optional,
                t,
            ),
    decreases parts.len(),
{
    if parts.len() > 0 {
        let d = parts.drop_last();
        let n = parts.len() - 1;
        assert forall|i: int| 0 <= i < d.len() implies (#[trigger] d[i]).len() <= length by {
            assert(d[i] == parts[i]);
        }
        lemma_parts_lead(d, mixed, depth, optional, length, t);
        let part = text::trimmed(parts[n]);
        text::lemma_trimmed_len(parts[n]);
        lemma_in_array(part);
        reveal_strlit(".json");
        assert(".json"@ =~= seq!['.', 'j', 's', 'o', 'n']);
        let own = match relations::inner_label(part) {
            Some(inner) => relations::with_mixed(
                relations::label_targets(inner, depth + 1, optional),
                mixed,
            ),
            None => if text::has_suffix(part, ".json"@) {
                seq![Target { path: part, depth, mixed, optional }]
            } else {
                Seq::empty()
            },
        };
        let less = relations::parts_targets(d, mixed, depth, optional, length);
        assert(parts.last() == parts[n]);
        assert(relations::parts_targets(parts, mixed, depth, optional, length) == less + own);
        same_records::lemma_concat_contains(less, own, t);
        assert(own.contains(t) <==> part_leads_to(part, mixed, depth, optional, t)) by {
            match relations::inner_label(part) {
                Some(inner) => {
                    let found = relations::label_targets(inner, depth + 1, optional);
                    if own.contains(t) {
                        let k = choose|k: int| 0 <= k < own.len() && own[k] == t;
                        assert(found.contains(found[k]));
                        assert(leads_deeper(inner, mixed, depth, optional, t));
                        assert(part == in_array(inner));
                    }
                    if part_leads_to(part, mixed, depth, optional, t) {
                        let u = choose|u: Target| #[trigger]
                            found.contains(u) && t == Target { mixed: u.mixed || mixed, ..u };
                        let k = choose|k: int| 0 <= k < found.len() && found[k] == u;
                        assert(own[k] == t);
                    }
                },
                None => {
                    if own.contains(t) {
                        assert(own[0] == t);
                    }
                    if part_leads_to(part, mixed, depth, optional, t) {
                        assert(own[0] == t);
                    }
                },
            }
        }
        if less.contains(t) {
            let i = choose|i: int|
                0 <= i < d.len() && part_leads_to(
                    text::trimmed(#[trigger] d[i]),
                    mixed,
                    depth,
                    optional,
                    t,
                );
            assert(parts[i] == d[i]);
        }
        if exists|i: int|
            0 <= i < parts.len() && part_leads_to(
                text::trimmed(#[trigger] parts[i]),
                mixed,
                depth,
                optional,
                t,
            ) {
            let i = choose|i: int|
                0 <= i < parts.len() && part_leads_to(
                    text::trimmed(#[trigger] parts[i]),
                    mixed,
                    depth,
                    optional,
                    t,
                );
            if i < n {
                assert(d[i] == parts[i]);
            }
        }
    }
}

/// The targets of a field are those of its label without the question marks at its end, which
/// say that all of them are optional. They stand in ascending order of paths, then of depths,
/// and no two that are next to each other are the same.
pub proof fn law_targets_of_a_field(l: Seq<char>, t: Target, i: int)
    ensures
        relations::field_targets(l).contains(t) <==> relations::label_targets(
            text::without_tail(l, '?'),
            0,
            l.len() > 0 && l.last() == '?',
        ).contains(t),
        0 < i < relations::field_targets(l).len() ==> {
            let a = relations::field_targets(l)[i - 1];
            let b = relations::field_targets(l)[i];
            a != b && (a.path.before(b.path) || (a.path == b.path && a.depth <= b.depth))
        },
{
    let all = relations::label_targets(
        text::without_tail(l, '?'),
        0,
        l.len() > 0 && l.last() == '?',
    );
    let keys = relations::target_keys(all);
    let ranks = order::ranked(keys);
    let numbered = Seq::new(keys.len(), |i: int| (keys[i], i as nat));
    let sorted = relations::sorted_targets(all);
    order::lemma_ranked(keys);
    order::lemma_sorted_set(numbered);
    assert(sorted.contains(t) <==> all.contains(t)) by {
        if sorted.contains(t) {
            let k = choose|k: int| 0 <= k < sorted.len() && sorted[k] == t;
            assert(ranks[k].1 < keys.len());
            assert(all[ranks[k].1 as int] == t);
        }
        if all.contains(t) {
            let k = choose|k: int| 0 <= k < all.len() && all[k] == t;
            assert(numbered[k] == (keys[k], k as nat));
            assert(numbered.contains(numbered[k]));
            assert(ranks.contains(numbered[k]));
            let m = choose|m: int| 0 <= m < ranks.len() && ranks[m] == numbered[k];
            assert(sorted[m] == t);
        }
    }
    lemma_dedup(sorted, t);
    assert forall|a: int, b: int| 0 <= a < b < sorted.len() implies in_target_order(
        #[trigger] sorted[a],
        #[trigger] sorted[b],
    ) by {
        assert(ranks[a].before(ranks[b]));
        assert(ranks[a].0 == keys[ranks[a].1 as int]);
        assert(ranks[b].0 == keys[ranks[b].1 as int]);
    }
    lemma_dedup_order(sorted, i);
}

spec fn in_target_order(a: Target, b: Target) -> bool {
    a.path.before(b.path) || (a.path == b.path && a.depth <= b.depth)
}

proof fn lemma_dedup(targets: Seq<Target>, t: Target)
    ensures
        relations::dedup(targets).contains(t) <==> targets.contains(t),
        targets.len() > 0 ==> relations::dedup(targets).len() > 0 && relations::dedup(
            targets,
        ).last() == targets.last(),
    decreases targets.len(),
{
    if targets.len() > 0 {
        let d = targets.drop_last();
        lemma_dedup(d, t);
        let rest = relations::dedup(d);
        let whole = relations::dedup(targets);
        same_records::lemma_concat_contains(d, seq![targets.last()], t);
        assert(targets =~= d + seq![targets.last()]);
        assert(seq![targets.last()].contains(t) <==> t == targets.last()) by {
            assert(seq![targets.last()][0] == targets.last());
        }
        if rest.len() > 0 && rest.last() == targets.last() {
            assert(rest[rest.len() - 1] == targets.last());
            assert(rest.contains(targets.last()));
        } else {
            same_records::lemma_concat_contains(rest, seq![targets.last()], t);
            assert(whole =~= rest + seq![targets.last()]);
        }
    }
}

proof fn lemma_dedup_order(targets: Seq<Target>, i: int)
    requires
        forall|a: int, b: int|
            0 <= a < b < targets.len() ==> in_target_order(
                #[trigger] targets[a],
                #[trigger] targets[b],
            ),
    ensures
        0 < i < relations::dedup(targets).len() ==> relations::dedup(targets)[i - 1]
            != relations::dedup(targets)[i] && in_target_order(
            relations::dedup(targets)[i - 1],
            relations::dedup(targets)[i],
        ),
    decreases targets.len(),
{
    if targets.len() > 0 {
        let d = targets.drop_last();
        let n = targets.len() - 1;
        assert forall|a: int, b: int| 0 <= a < b < d.len() implies in_target_order(
            #[trigger] d[a],
            #[trigger] d[b],
        ) by {
            assert(in_target_order(targets[a], targets[b]));
        }
        lemma_dedup_order(d, i);
        let rest = relations::dedup(d);
        let whole = relations::dedup(targets);
        if 0 < i < whole.len() {
            if i < rest.len() {
                assert(whole[i] == rest[i] && whole[i - 1] == rest[i - 1]);
            } else {
                lemma_dedup(d, rest.last());
                assert(d.len() > 0) by {
                    if d.len() == 0 {
                        assert(rest.len() == 0);
                    }
                }
                assert(rest.last() == d.last());
                assert(d.last() == targets[n - 1]);
                assert(in_target_order(targets[n - 1], targets[n]));
            }
        }
    }
}

} // verus!
