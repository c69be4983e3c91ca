//! What holds of records: which schema describes which object, and under which path.

use crate::json;
use crate::json::Json;
use crate::label;
use crate::laws;
use crate::order;
use crate::order::Ordered;
use crate::path;
use crate::quoted;
use crate::records;
use crate::records::Rec;
use crate::same_records;
use crate::walk::{Occ, Role};
use vstd::prelude::*;

verus! {

/// Every path keeps its schema when the paths of equal schemas are merged: some record lists the
/// path and has that schema.
pub proof fn law_merged_paths_keep_their_schemas(
    candidates: Seq<(Seq<char>, Seq<(Seq<char>, Seq<char>)>)>,
    k: int,
) -> (i: int)
    requires
        0 <= k < candidates.len(),
    ensures
        0 <= i < records::merged(candidates).len(),
        records::merged(candidates)[i].object_paths.contains(candidates[k].0),
        records::merged(candidates)[i].schema == candidates[k].1,
{
    let pairs = records::canonical_pairs(candidates);
    let canon = json::compact_json(candidates[k].1);
    let canons = order::sorted_set(order::firsts(pairs));
    order::lemma_sorted_set(order::firsts(pairs));
    assert(order::firsts(pairs)[k] == canon);
    assert(canons.contains(canon));
    let i = choose|i: int| 0 <= i < canons.len() && canons[i] == canon;
    let same = order::under(pairs, canon);
    assert(pairs[k] == (canon, candidates[k]));
    assert(pairs.contains((canon, candidates[k])));
    same_records::lemma_under_contains(pairs, canon, candidates[k]);
    let m = choose|m: int| 0 <= m < same.len() && same[m] == candidates[k];
    let names = order::firsts(same);
    let ranks = order::ranked(names);
    let numbered = Seq::new(names.len(), |i: int| (names[i], i as nat));
    order::lemma_sorted_set(numbered);
    assert(numbered[m] == (candidates[k].0, m as nat));
    assert(numbered.contains(numbered[m]));
    assert(ranks.contains(numbered[m]));
    let n = choose|n: int| 0 <= n < ranks.len() && ranks[n] == numbered[m];
    assert(order::firsts(ranks)[n] == candidates[k].0);
    laws::lemma_merged_text(candidates, i);
    quoted::law_texts_tell_objects_apart(
        records::merged(candidates)[i].schema,
        candidates[k].1,
    );
    i
}

/// A merged record lists only paths that have its schema, in ascending order; the first is the
/// path of the schema. It is no record of items. The records stand in the order of the texts
/// of their schemas.
pub proof fn law_merged_records_list_their_paths(
    candidates: Seq<(Seq<char>, Seq<(Seq<char>, Seq<char>)>)>,
    i: int,
    j: int,
) -> (k: int)
    requires
        0 <= i < records::merged(candidates).len(),
        0 <= j < records::merged(candidates)[i].object_paths.len(),
    ensures
        0 <= k < candidates.len(),
        candidates[k].0 == records::merged(candidates)[i].object_paths[j],
        candidates[k].1 == records::merged(candidates)[i].schema,
        records::merged(candidates)[i].schema_path == records::merged(candidates)[i].object_paths[0],
        j > 0 ==> !records::merged(candidates)[i].object_paths[j].before(
            records::merged(candidates)[i].object_paths[j - 1],
        ),
        records::merged(candidates)[i].array_parent is None,
        records::merged(candidates)[i].index_paths.len() == 0,
        i > 0 ==> json::compact_json(records::merged(candidates)[i - 1].schema).before(
            json::compact_json(records::merged(candidates)[i].schema),
        ),
{
    let pairs = records::canonical_pairs(candidates);
    let canons = order::sorted_set(order::firsts(pairs));
    order::lemma_sorted_set(order::firsts(pairs));
    let same = order::under(pairs, canons[i]);
    let names = order::firsts(same);
    let ranks = order::ranked(names);
    let numbered = Seq::new(names.len(), |i: int| (names[i], i as nat));
    order::lemma_sorted_set(numbered);
    order::lemma_ranked(names);
    let m = ranks[j].1 as int;
    assert(ranks[j].0 == names[m]);
    assert(same.contains(same[m]));
    same_records::lemma_under_contains(pairs, canons[i], same[m]);
    let k = choose|k: int| 0 <= k < pairs.len() && pairs[k] == (canons[i], same[m]);
    laws::lemma_merged_text(candidates, i);
    quoted::law_texts_tell_objects_apart(
        records::merged(candidates)[i].schema,
        candidates[k].1,
    );
    if j > 0 {
        assert(ranks[j - 1].before(ranks[j]));
        if ranks[j].0.before(ranks[j - 1].0) {
            order::lemma_before_excludes(ranks[j].0, ranks[j - 1].0);
        }
    }
    if i > 0 {
        laws::lemma_merged_text(candidates, i - 1);
        assert(canons[i - 1].before(canons[i]));
    }
    k
}

/// The objects at one place, in their order.
pub open spec fn objects_at(occs: Seq<Occ<Seq<Seq<char>>>>, place: Seq<Seq<char>>) -> Seq<
    Seq<(Seq<char>, Json)>,
> {
    occs.filter(|o: Occ<Seq<Seq<char>>>| o.at == place).map_values(
        |o: Occ<Seq<Seq<char>>>| o.fields,
    )
}

proof fn lemma_objects_at(occs: Seq<Occ<Seq<Seq<char>>>>, place: Seq<Seq<char>>)
    ensures
        order::under(records::place_pairs(occs), place) == objects_at(occs, place),
    decreases occs.len(),
{
    reveal(Seq::filter);
    if occs.len() > 0 {
        let d = occs.drop_last();
        lemma_objects_at(d, place);
        assert(records::place_pairs(occs).drop_last() =~= records::place_pairs(d));
        assert(records::place_pairs(occs).last() == (occs.last().at, occs.last().fields));
        assert(order::under(records::place_pairs(occs), place) =~= objects_at(occs, place));
    } else {
        assert(order::under(records::place_pairs(occs), place) =~= objects_at(occs, place));
    }
}

/// All objects in one field have one schema together, under the path of that field.
pub proof fn law_objects_of_a_field_share_a_schema(
    outdir: Seq<char>,
    occs: Seq<Occ<Seq<Seq<char>>>>,
    k: int,
) -> (i: int)
    requires
        0 <= k < occs.len(),
    ensures
        0 <= i < records::object_candidates(outdir, occs).len(),
        records::object_candidates(outdir, occs)[i].0 == path::reference(outdir, occs[k].at)
            + ".json"@,
        records::object_candidates(outdir, occs)[i].1 == label::schema_of(
            path::child_prefix(outdir, occs[k].at),
            objects_at(occs, occs[k].at),
        ),
{
    let pairs = records::place_pairs(occs);
    let places = order::sorted_set(order::firsts(pairs));
    order::lemma_sorted_set(order::firsts(pairs));
    assert(order::firsts(pairs)[k] == occs[k].at);
    assert(order::firsts(pairs).contains(occs[k].at));
    assert(places.contains(occs[k].at));
    let i = choose|i: int| 0 <= i < places.len() && places[i] == occs[k].at;
    lemma_objects_at(occs, occs[k].at);
    i
}

/// There is no schema but for the places of objects, and for each place only one.
pub proof fn law_schemas_are_those_of_places(
    outdir: Seq<char>,
    occs: Seq<Occ<Seq<Seq<char>>>>,
    i: int,
) -> (k: int)
    requires
        0 <= i < records::object_candidates(outdir, occs).len(),
    ensures
        0 <= k < occs.len(),
        records::object_candidates(outdir, occs)[i].0 == path::reference(outdir, occs[k].at)
            + ".json"@,
        records::object_candidates(outdir, occs).len() == occs.map_values(
            |o: Occ<Seq<Seq<char>>>| o.at,
        ).to_set().len(),
{
    let pairs = records::place_pairs(occs);
    let all = order::firsts(pairs);
    let places = order::sorted_set(all);
    order::lemma_sorted_set(all);
    assert(places.contains(places[i]));
    assert(all.contains(places[i]));
    let k = choose|k: int| 0 <= k < all.len() && all[k] == places[i];
    let ats = occs.map_values(|o: Occ<Seq<Seq<char>>>| o.at);
    assert(ats =~= all);
    assert(places.no_duplicates()) by {
        assert forall|a: int, b: int|
            0 <= a < places.len() && 0 <= b < places.len() && a != b implies places[a]
            != places[b] by {
            if a < b {
                order::lemma_before_excludes(places[a], places[b]);
            } else {
                order::lemma_before_excludes(places[b], places[a]);
            }
        }
    }
    places.unique_seq_to_set();
    assert(places.to_set() =~= all.to_set()) by {
        assert forall|x: Seq<Seq<char>>| places.to_set().contains(x) == all.to_set().contains(
            x,
        ) by {
            assert(places.contains(x) <==> all.contains(x));
        }
    }
    k
}

/// The items at one place with their positions, in their order.
pub open spec fn items_at(occs: Seq<Occ<Seq<Seq<char>>>>, place: Seq<Seq<char>>) -> Seq<
    (Seq<nat>, Seq<(Seq<char>, Json)>),
> {
    occs.filter(|o: Occ<Seq<Seq<char>>>| o.at == place).map_values(
        |o: Occ<Seq<Seq<char>>>| (o.indexes, o.fields),
    )
}

pub proof fn lemma_items_at(occs: Seq<Occ<Seq<Seq<char>>>>, place: Seq<Seq<char>>)
    ensures
        order::under(records::place_items(occs), place) == items_at(occs, place),
    decreases occs.len(),
{
    reveal(Seq::filter);
    if occs.len() > 0 {
        let d = occs.drop_last();
        lemma_items_at(d, place);
        assert(records::place_items(occs).drop_last() =~= records::place_items(d));
        assert(records::place_items(occs).last() == (
            occs.last().at,
            (occs.last().indexes, occs.last().fields),
        ));
        assert(order::under(records::place_items(occs), place) =~= items_at(occs, place));
    } else {
        assert(order::under(records::place_items(occs), place) =~= items_at(occs, place));
    }
}

/// The schema of one item.
pub open spec fn schema_of_item(prefix: Seq<char>, item: (Seq<nat>, Seq<(Seq<char>, Json)>)) -> Seq<
    (Seq<char>, Seq<char>),
> {
    label::schema_of(prefix, seq![item.1])
}

/// All items have one schema.
pub open spec fn all_alike(
    prefix: Seq<char>,
    items: Seq<(Seq<nat>, Seq<(Seq<char>, Json)>)>,
) -> bool {
    forall|i: int, j: int|
        0 <= i < items.len() && 0 <= j < items.len() ==> schema_of_item(prefix, #[trigger] items[i])
            == schema_of_item(prefix, #[trigger] items[j])
}

/// The records of the items of an array.
pub open spec fn records_of_array(
    base: Seq<char>,
    prefix: Seq<char>,
    items: Seq<(Seq<nat>, Seq<(Seq<char>, Json)>)>,
    container: bool,
) -> Seq<Rec> {
    records::item_records(
        base,
        records::distinct_rows(records::item_rows(prefix, items)),
        records::item_refs(prefix, items),
        container,
    )
}

/// The records of the items of an array are those of the items at its place.
pub proof fn law_items_of_a_place(
    outdir: Seq<char>,
    occs: Seq<Occ<Seq<Seq<char>>>>,
    place: Seq<Seq<char>>,
    container: bool,
)
    ensures
        records::place_records(outdir, occs, place, container) == records_of_array(
            path::reference(outdir, place),
            path::child_prefix(outdir, place),
            items_at(occs, place),
            container,
        ),
{
    lemma_items_at(occs, place);
}

/// A distinct schema is that of some item, and stands by its text.
proof fn lemma_schema_at(
    prefix: Seq<char>,
    items: Seq<(Seq<nat>, Seq<(Seq<char>, Json)>)>,
    j: int,
) -> (i: int)
    requires
        0 <= j < records::distinct_rows(records::item_rows(prefix, items)).len(),
    ensures
        0 <= i < items.len(),
        ({
            let schemas = records::distinct_rows(records::item_rows(prefix, items));
            &&& schemas[j].1 == schema_of_item(prefix, items[i])
            &&& schemas[j].0 == json::compact_json(schemas[j].1)
            &&& order::under(schemas, schemas[j].0)[0] == schemas[j].1
        }),
{
    let rows = records::item_rows(prefix, items);
    let all = order::firsts(rows);
    let canons = order::sorted_set(all);
    let schemas = records::distinct_rows(rows);
    order::lemma_sorted_set(all);
    assert(order::firsts(schemas) =~= canons);
    let c = canons[j];
    assert(canons.contains(c));
    order::lemma_under_nonempty(rows, c);
    let u = order::under(rows, c);
    assert(u.contains(u[0]));
    same_records::lemma_under_contains(rows, c, u[0]);
    order::lemma_under_unique(schemas, j);
    choose|i: int| 0 <= i < rows.len() && rows[i] == (c, u[0])
}

/// The schema of an item is one of the distinct ones.
proof fn lemma_schema_for(
    prefix: Seq<char>,
    items: Seq<(Seq<nat>, Seq<(Seq<char>, Json)>)>,
    i: int,
) -> (j: int)
    requires
        0 <= i < items.len(),
    ensures
        0 <= j < records::distinct_rows(records::item_rows(prefix, items)).len(),
        records::distinct_rows(records::item_rows(prefix, items))[j].1 == schema_of_item(
            prefix,
            items[i],
        ),
{
    let rows = records::item_rows(prefix, items);
    let all = order::firsts(rows);
    let canons = order::sorted_set(all);
    order::lemma_sorted_set(all);
    let c = rows[i].0;
    assert(all[i] == c);
    assert(all.contains(c));
    assert(canons.contains(c));
    let j = choose|j: int| 0 <= j < canons.len() && canons[j] == c;
    let k = lemma_schema_at(prefix, items, j);
    quoted::law_texts_tell_objects_apart(
        schema_of_item(prefix, items[k]),
        schema_of_item(prefix, items[i]),
    );
    j
}

/// There is one distinct schema exactly if all items have it.
proof fn lemma_one_schema(prefix: Seq<char>, items: Seq<(Seq<nat>, Seq<(Seq<char>, Json)>)>)
    requires
        items.len() > 0,
    ensures
        records::distinct_rows(records::item_rows(prefix, items)).len() == 1 <==> all_alike(
            prefix,
            items,
        ),
{
    let rows = records::item_rows(prefix, items);
    let canons = order::sorted_set(order::firsts(rows));
    let schemas = records::distinct_rows(rows);
    order::lemma_sorted_set(order::firsts(rows));
    let first = lemma_schema_for(prefix, items, 0);
    if schemas.len() == 1 {
        assert forall|i: int, j: int|
            0 <= i < items.len() && 0 <= j < items.len() implies schema_of_item(
            prefix,
            #[trigger] items[i],
        ) == schema_of_item(prefix, #[trigger] items[j]) by {
            let a = lemma_schema_for(prefix, items, i);
            let b = lemma_schema_for(prefix, items, j);
            assert(a == b);
        }
    } else {
        let a = lemma_schema_at(prefix, items, 0);
        let b = lemma_schema_at(prefix, items, 1);
        order::lemma_before_excludes(canons[0], canons[1]);
        if all_alike(prefix, items) {
            assert(schema_of_item(prefix, items[a]) == schema_of_item(prefix, items[b]));
        }
    }
}

/// The positions of the items with one schema, in ascending order.
pub open spec fn are_positions(
    positions: Seq<Seq<nat>>,
    prefix: Seq<char>,
    items: Seq<(Seq<nat>, Seq<(Seq<char>, Json)>)>,
    schema: Seq<(Seq<char>, Seq<char>)>,
) -> bool {
    &&& order::ascending(positions)
    &&& forall|p: Seq<nat>| #[trigger]
        positions.contains(p) <==> exists|i: int|
            0 <= i < items.len() && (#[trigger] items[i]).0 == p && schema_of_item(prefix, items[i])
                == schema
}

proof fn lemma_positions(
    prefix: Seq<char>,
    items: Seq<(Seq<nat>, Seq<(Seq<char>, Json)>)>,
    schema: Seq<(Seq<char>, Seq<char>)>,
)
    ensures
        are_positions(
            records::positions(records::item_refs(prefix, items), json::compact_json(schema)),
            prefix,
            items,
            schema,
        ),
{
    let refs = records::item_refs(prefix, items);
    let canon = json::compact_json(schema);
    let found = order::under(refs, canon);
    let positions = records::positions(refs, canon);
    order::lemma_sorted_set(found);
    assert forall|p: Seq<nat>| #[trigger] positions.contains(p) <==> exists|i: int|
        0 <= i < items.len() && (#[trigger] items[i]).0 == p && schema_of_item(prefix, items[i])
            == schema by {
        same_records::lemma_under_contains(refs, canon, p);
        if positions.contains(p) {
            assert(found.contains(p));
            let i = choose|i: int| 0 <= i < refs.len() && refs[i] == (canon, p);
            quoted::law_texts_tell_objects_apart(schema_of_item(prefix, items[i]), schema);
            assert(items[i].0 == p);
        }
        if exists|i: int|
            0 <= i < items.len() && (#[trigger] items[i]).0 == p && schema_of_item(prefix, items[i])
                == schema {
            let i = choose|i: int|
                0 <= i < items.len() && (#[trigger] items[i]).0 == p && schema_of_item(
                    prefix,
                    items[i],
                ) == schema;
            assert(refs[i] == (canon, p));
            assert(refs.contains((canon, p)));
        }
    }
}

/// The record of items with one schema: their schema and all their positions, under the path of
/// the array if all its items have that schema, else under a path below it that is named after
/// the first position.
pub open spec fn describes_items(
    r: Rec,
    base: Seq<char>,
    prefix: Seq<char>,
    items: Seq<(Seq<nat>, Seq<(Seq<char>, Json)>)>,
    schema: Seq<(Seq<char>, Seq<char>)>,
) -> bool {
    &&& r.schema == schema
    &&& r.array_parent == Some(base + ".json"@)
    &&& are_positions(r.index_paths, prefix, items, schema)
    &&& r.index_paths.len() > 0
    &&& r.object_paths == seq![r.schema_path]
    &&& all_alike(prefix, items) ==> r.schema_path == base + ".json"@
    &&& !all_alike(prefix, items) ==> r.schema_path == base + "/"@ + path::file_stem(
        r.index_paths[0],
    ) + ".json"@
}

/// The record that stands for an array whose items differ: it refers to the directory in which
/// their schemas are.
pub open spec fn refers_to_variants(r: Rec, base: Seq<char>) -> bool {
    &&& r.schema_path == base + ".json"@
    &&& r.object_paths == seq![base + ".json"@]
    &&& r.schema == seq![("$refs_mut"@, base + "/"@)]
    &&& r.array_parent is None
    &&& r.index_paths.len() == 0
}

/// Every item of an array has a record, which has its schema and lists its position.
pub proof fn law_every_item_has_a_record(
    base: Seq<char>,
    prefix: Seq<char>,
    items: Seq<(Seq<nat>, Seq<(Seq<char>, Json)>)>,
    container: bool,
    k: int,
) -> (i: int)
    requires
        0 <= k < items.len(),
    ensures
        0 <= i < records_of_array(base, prefix, items, container).len(),
        describes_items(
            records_of_array(base, prefix, items, container)[i],
            base,
            prefix,
            items,
            schema_of_item(prefix, items[k]),
        ),
        records_of_array(base, prefix, items, container)[i].index_paths.contains(items[k].0),
{
    let schema = schema_of_item(prefix, items[k]);
    let canon = json::compact_json(schema);
    let rows = records::item_rows(prefix, items);
    let refs = records::item_refs(prefix, items);
    let schemas = records::distinct_rows(rows);
    let recs = records_of_array(base, prefix, items, container);
    let positions = records::positions(refs, canon);
    lemma_one_schema(prefix, items);
    lemma_positions(prefix, items, schema);
    assert(positions.contains(items[k].0));
    let j = lemma_schema_for(prefix, items, k);
    lemma_schema_at(prefix, items, j);
    assert(schemas[j].0 == canon);
    if schemas.len() == 1 {
        0
    } else {
        let key = (positions[0], canon);
        let keys = records::variant_keys(schemas, refs);
        let sorted = order::sorted_set(keys);
        records::lemma_variant_keys(schemas, refs, key);
        order::lemma_sorted_set(keys);
        assert(sorted.contains(key));
        let m = choose|m: int| 0 <= m < sorted.len() && sorted[m] == key;
        let v = records::variants(base, schemas, refs);
        assert(order::under(schemas, canon)[0] == schema);
        let i = if container {
            m + 1
        } else {
            m
        };
        assert(recs[i] == v[m]);
        i
    }
}

/// The records of an array are those of its items; ahead of them, if it was asked for and the
/// items differ, the one that refers to them. The records of differing items stand in the
/// order of their first positions.
pub proof fn law_array_records_are_those_of_items(
    base: Seq<char>,
    prefix: Seq<char>,
    items: Seq<(Seq<nat>, Seq<(Seq<char>, Json)>)>,
    container: bool,
    i: int,
) -> (k: int)
    requires
        0 <= i < records_of_array(base, prefix, items, container).len(),
        items.len() > 0,
    ensures
        i == 0 && container && !all_alike(prefix, items) ==> refers_to_variants(
            records_of_array(base, prefix, items, container)[i],
            base,
        ),
        !(i == 0 && container && !all_alike(prefix, items)) ==> 0 <= k < items.len()
            && describes_items(
            records_of_array(base, prefix, items, container)[i],
            base,
            prefix,
            items,
            schema_of_item(prefix, items[k]),
        ),
        all_alike(prefix, items) ==> records_of_array(base, prefix, items, container).len() == 1,
        !all_alike(prefix, items) && i >= (if container {
            2int
        } else {
            1
        }) ==> !records_of_array(base, prefix, items, container)[i].index_paths[0].before(
            records_of_array(base, prefix, items, container)[i - 1].index_paths[0],
        ),
{
    let rows = records::item_rows(prefix, items);
    let refs = records::item_refs(prefix, items);
    let schemas = records::distinct_rows(rows);
    let recs = records_of_array(base, prefix, items, container);
    lemma_one_schema(prefix, items);
    if schemas.len() == 1 {
        let k = lemma_schema_at(prefix, items, 0);
        lemma_positions(prefix, items, schemas[0].1);
        assert(schemas[0].0 == json::compact_json(schemas[0].1));
        assert(recs[0].index_paths.contains(items[k].0));
        k
    } else {
        let keys = records::variant_keys(schemas, refs);
        let sorted = order::sorted_set(keys);
        let v = records::variants(base, schemas, refs);
        order::lemma_sorted_set(keys);
        let m = if container {
            i - 1
        } else {
            i
        };
        if m < 0 {
            assert(recs[i] == records::container_record(base));
            0
        } else {
            assert(recs[i] == v[m]);
            assert(sorted.contains(sorted[m]));
            records::lemma_variant_keys(schemas, refs, sorted[m]);
            let j = choose|j: int| 0 <= j < schemas.len() && (#[trigger] schemas[j]).0 == sorted[m].1;
            let k = lemma_schema_at(prefix, items, j);
            lemma_positions(prefix, items, schemas[j].1);
            if m > 0 {
                assert(recs[i - 1] == v[m - 1]);
                assert(sorted.contains(sorted[m - 1]));
                records::lemma_variant_keys(schemas, refs, sorted[m - 1]);
                assert(sorted[m - 1].before(sorted[m]));
                if sorted[m].0.before(sorted[m - 1].0) {
                    order::lemma_before_excludes(sorted[m].0, sorted[m - 1].0);
                }
            }
            k
        }
    }
}

/// The records of all arrays are those of each of their places, the places in ascending order.
pub proof fn law_arrays_are_taken_place_by_place(
    outdir: Seq<char>,
    occs: Seq<Occ<Seq<Seq<char>>>>,
    a: Seq<Seq<Seq<char>>>,
    b: Seq<Seq<Seq<char>>>,
    place: Seq<Seq<char>>,
    container: bool,
) -> (places: Seq<Seq<Seq<char>>>)
    ensures
        records::collection_records(outdir, occs, container) == records::places_records(
            outdir,
            occs,
            places,
            container,
        ),
        order::ascending(places),
        places.contains(place) <==> exists|i: int| 0 <= i < occs.len() && (#[trigger] occs[i]).at == place,
        records::places_records(outdir, occs, a + b, container) == records::places_records(
            outdir,
            occs,
            a,
            container,
        ) + records::places_records(outdir, occs, b, container),
        records::places_records(outdir, occs, seq![place], container) == records::place_records(
            outdir,
            occs,
            place,
            container,
        ),
{
    let all = order::firsts(records::place_items(occs));
    let places = order::sorted_set(all);
    order::lemma_sorted_set(all);
    if places.contains(place) {
        assert(all.contains(place));
        let i = choose|i: int| 0 <= i < all.len() && all[i] == place;
        assert(occs[i].at == place);
    }
    if exists|i: int| 0 <= i < occs.len() && (#[trigger] occs[i]).at == place {
        let i = choose|i: int| 0 <= i < occs.len() && (#[trigger] occs[i]).at == place;
        assert(all[i] == place);
        assert(all.contains(place));
    }
    lemma_places_concat(outdir, occs, a, b, container);
    reveal_with_fuel(records::places_records, 2);
    assert(seq![place].drop_last() =~= Seq::empty());
    assert(records::places_records(outdir, occs, seq![place], container)
        =~= records::place_records(outdir, occs, place, container));
    places
}

proof fn lemma_places_concat(
    outdir: Seq<char>,
    occs: Seq<Occ<Seq<Seq<char>>>>,
    a: Seq<Seq<Seq<char>>>,
    b: Seq<Seq<Seq<char>>>,
    container: bool,
)
    ensures
        records::places_records(outdir, occs, a + b, container) == records::places_records(
            outdir,
            occs,
            a,
            container,
        ) + records::places_records(outdir, occs, b, container),
    decreases b.len(),
{
    if b.len() == 0 {
        assert(a + b =~= a);
        assert(records::places_records(outdir, occs, a + b, container) =~= records::places_records(
            outdir,
            occs,
            a,
            container,
        ) + records::places_records(outdir, occs, b, container));
    } else {
        lemma_places_concat(outdir, occs, a, b.drop_last(), container);
        assert((a + b).drop_last() =~= a + b.drop_last());
        assert((a + b).last() == b.last());
        assert(records::places_records(outdir, occs, a + b, container) =~= records::places_records(
            outdir,
            occs,
            a,
            container,
        ) + records::places_records(outdir, occs, b, container));
    }
}

/// The records of an input are those of the objects in fields, which are merged, then those of
/// array items, with records that refer to differing ones, then those of top-level items,
/// without.
pub proof fn law_records_of_an_input(outdir: Seq<char>, occs: Seq<Occ<Seq<Seq<char>>>>)
    ensures
        records::built(outdir, occs) == records::merged(
            records::object_candidates(
                outdir,
                occs.filter(|o: Occ<Seq<Seq<char>>>| o.role == Role::Object),
            ),
        ) + records::collection_records(
            outdir,
            occs.filter(|o: Occ<Seq<Seq<char>>>| o.role == Role::ArrayItem),
            true,
        ) + records::collection_records(
            outdir,
            occs.filter(|o: Occ<Seq<Seq<char>>>| o.role == Role::RootCollection),
            false,
        ),
{
    crate::walk_laws::law_roles_are_picked(occs, Role::Object);
    crate::walk_laws::law_roles_are_picked(occs, Role::ArrayItem);
    crate::walk_laws::law_roles_are_picked(occs, Role::RootCollection);
}

} // verus!
