//! Canonical schemas and the objects that they describe.

use crate::json;
use crate::json::{canonical_json, Json, JsonValue};
use crate::label;
use crate::label::schema_for_objects;
use crate::order;
use crate::ordmap;
use crate::ordmap::{group_by, Key, OrdMap};
use crate::path;
use crate::path::{index_path_file_stem, json_path, reference_path};
use crate::text;
use crate::text::sorted_vec;
use crate::walk;
use crate::walk::{collect_occurrences, copy_indexes, copy_texts, Entry, Occ, Occurrence, Role};
use vstd::prelude::*;

verus! {

/// A canonical schema, the object paths that it describes and, for items of an array or of a
/// collection, the positions at which it occurs.
#[derive(Debug)]
pub struct Record {
    pub schema_path: String,
    pub object_paths: Vec<String>,
    pub schema: Vec<(String, String)>,
    pub array_parent: Option<String>,
    pub array_index_paths: Vec<Vec<usize>>,
}

pub ghost struct Rec {
    pub schema_path: Seq<char>,
    pub object_paths: Seq<Seq<char>>,
    pub schema: Seq<(Seq<char>, Seq<char>)>,
    pub array_parent: Option<Seq<char>>,
    pub index_paths: Seq<Seq<nat>>,
}

pub open spec fn text_option(t: Option<String>) -> Option<Seq<char>> {
    match t {
        None => None,
        Some(t) => Some(t@),
    }
}

pub open spec fn record_model(r: Record) -> Rec {
    Rec {
        schema_path: r.schema_path@,
        object_paths: text::models(r.object_paths@),
        schema: json::schema_model(r.schema@),
        array_parent: text_option(r.array_parent),
        index_paths: text::models(r.array_index_paths@),
    }
}

pub open spec fn records_model(records: Seq<Record>) -> Seq<Rec> {
    Seq::new(records.len(), |i: int| record_model(records[i]))
}

/// A record for every distinct schema among `candidates` (pairs of a path and its schema), in
/// ascending order of the canonical texts. The paths of equal schemas stand in ascending
/// order; the first of them is the path of the schema.
pub open spec fn merged(candidates: Seq<(Seq<char>, Seq<(Seq<char>, Seq<char>)>)>) -> Seq<Rec> {
    merged_by_text(canonical_pairs(candidates))
}

/// The records of candidates that stand with the texts by which they are merged.
pub open spec fn merged_by_text(
    pairs: Seq<(Seq<char>, (Seq<char>, Seq<(Seq<char>, Seq<char>)>))>,
) -> Seq<Rec> {
    let canons = order::sorted_set(order::firsts(pairs));
    Seq::new(canons.len(), |i: int| merged_record(order::under(pairs, canons[i])))
}

pub open spec fn canonical_pairs(
    candidates: Seq<(Seq<char>, Seq<(Seq<char>, Seq<char>)>)>,
) -> Seq<(Seq<char>, (Seq<char>, Seq<(Seq<char>, Seq<char>)>))> {
    Seq::new(candidates.len(), |i: int| (json::compact_json(candidates[i].1), candidates[i]))
}

pub open spec fn merged_record(same: Seq<(Seq<char>, Seq<(Seq<char>, Seq<char>)>)>) -> Rec {
    let paths = order::ranked(order::firsts(same));
    Rec {
        schema_path: paths[0].0,
        object_paths: order::firsts(paths),
        schema: same[paths[0].1 as int].1,
        array_parent: None,
        index_paths: Seq::empty(),
    }
}

/// The places of the occurrences with their fields.
pub open spec fn place_pairs<P>(occs: Seq<Occ<P>>) -> Seq<(P, Seq<(Seq<char>, Json)>)> {
    Seq::new(occs.len(), |i: int| (occs[i].at, occs[i].fields))
}

/// The schema of all objects at each place, in ascending order of the places.
pub open spec fn object_candidates(outdir: Seq<char>, occs: Seq<Occ<Seq<Seq<char>>>>) -> Seq<
    (Seq<char>, Seq<(Seq<char>, Seq<char>)>),
> {
    let places = order::sorted_set(order::firsts(place_pairs(occs)));
    Seq::new(
        places.len(),
        |i: int|
            (
                path::json_file(path::reference(outdir, places[i])),
                label::schema_of(
                    path::child_prefix(outdir, places[i]),
                    order::under(place_pairs(occs), places[i]),
                ),
            ),
    )
}

pub fn copy_schema(schema: &Vec<(String, String)>) -> (r: Vec<(String, String)>)
    ensures
        json::schema_model(r@) == json::schema_model(schema@),
{
    let mut out: Vec<(String, String)> = Vec::new();
    let mut i: usize = 0;
    while i < schema.len()
        invariant
            i <= schema@.len(),
            out@.len() == i,
            forall|j: int|
                0 <= j < i ==> (#[trigger] out@[j]).0@ == schema@[j].0@ && out@[j].1@
                    == schema@[j].1@,
        decreases schema@.len() - i,
    {
        out.push((schema[i].0.clone(), schema[i].1.clone()));
        i = i + 1;
    }
    assert(json::schema_model(out@) =~= json::schema_model(schema@));
    out
}

pub open spec fn candidate_model(c: (String, Vec<(String, String)>)) -> (
    Seq<char>,
    Seq<(Seq<char>, Seq<char>)>,
) {
    (c.0@, json::schema_model(c.1@))
}

pub open spec fn candidates_model(candidates: Seq<(String, Vec<(String, String)>)>) -> Seq<
    (Seq<char>, Seq<(Seq<char>, Seq<char>)>),
> {
    Seq::new(candidates.len(), |i: int| candidate_model(candidates[i]))
}

pub open spec fn schemas_sorted(candidates: Seq<(Seq<char>, Seq<(Seq<char>, Seq<char>)>)>) -> bool {
    forall|i: int|
        0 <= i < candidates.len() ==> order::ascending(
            json::schema_names((#[trigger] candidates[i]).1),
        )
}

pub open spec fn pairs_model(items: Seq<(String, (String, Vec<(String, String)>))>) -> Seq<
    (Seq<char>, (Seq<char>, Seq<(Seq<char>, Seq<char>)>)),
> {
    Seq::new(items.len(), |i: int| (items[i].0@, candidate_model(items[i].1)))
}

/// Merges the paths whose schemas are the same.
pub fn merge_candidates(candidates: Vec<(String, Vec<(String, String)>)>) -> (r: Vec<Record>)
    requires
        schemas_sorted(candidates_model(candidates@)),
    ensures
        records_model(r@) == merged(candidates_model(candidates@)),
{
    let ghost all = candidates@;
    let ghost models = candidates_model(all);
    let mut items: Vec<(String, (String, Vec<(String, String)>))> = Vec::new();
    for candidate in it: candidates
        invariant
            it.seq() == all,
            models == candidates_model(all),
            schemas_sorted(models),
            items@.len() == it.index(),
            forall|j: int|
                0 <= j < items@.len() ==> (#[trigger] items@[j]).0@ == json::compact_json(
                    models[j].1,
                ) && candidate_model(items@[j].1) == models[j],
    {
        assert(models[it.index() as int] == candidate_model(candidate));
        items.push((canonical_json(&candidate.1), candidate));
    }
    assert(pairs_model(items@) =~= canonical_pairs(models));
    merge_by_text(items)
}

/// Merges the paths whose schemas stand with the same text.
pub fn merge_by_text(items: Vec<(String, (String, Vec<(String, String)>))>) -> (r: Vec<Record>)
    ensures
        records_model(r@) == merged_by_text(pairs_model(items@)),
{
    let ghost pairs = pairs_model(items@);
    let ghost given = items@;
    let ghost f = |c: (String, Vec<(String, String)>)| candidate_model(c);
    proof {
        assert(pairs =~= Seq::new(given.len(), |i: int| (given[i].0.model(), f(given[i].1))));
        assert(ordmap::key_models(given) =~= order::firsts(pairs));
        order::lemma_sorted_set(order::firsts(pairs));
    }
    let groups = group_by(items);
    let ghost canons = groups.keys();
    let mut records: Vec<Record> = Vec::new();
    let mut i: usize = 0;
    let ghost target = merged_by_text(pairs);
    while i < groups.entries.len()
        invariant
            i <= groups.entries@.len(),
            canons == groups.keys(),
            canons == order::sorted_set(order::firsts(pairs)),
            pairs == Seq::new(given.len(), |i: int| (given[i].0.model(), f(given[i].1))),
            f == (|c: (String, Vec<(String, String)>)| candidate_model(c)),
            forall|j: int|
                0 <= j < groups.entries@.len() ==> (#[trigger] groups.entries@[j]).1@
                    == ordmap::picked(given, groups.entries@[j].0.model()),
            target == merged_by_text(pairs),
            records@.len() == i,
            forall|j: int| 0 <= j < i ==> record_model(#[trigger] records@[j]) == target[j],
        decreases groups.entries@.len() - i,
    {
        let same = &groups.entries[i].1;
        let ghost group = order::under(pairs, canons[i as int]);
        proof {
            ordmap::lemma_picked(given, f, canons[i as int]);
            order::lemma_sorted_set(order::firsts(pairs));
            assert(canons.contains(canons[i as int]));
            order::lemma_under_nonempty(pairs, canons[i as int]);
            assert(group =~= candidates_model(same@));
            order::lemma_ranked(order::firsts(group));
        }
        let mut keys: Vec<(String, usize)> = Vec::new();
        let mut j: usize = 0;
        while j < same.len()
            invariant
                j <= same@.len(),
                keys@.len() == j,
                forall|m: int|
                    0 <= m < j ==> (#[trigger] keys@[m]).0@ == same@[m].0@ && keys@[m].1 == m,
            decreases same@.len() - j,
        {
            keys.push((same[j].0.clone(), j));
            j = j + 1;
        }
        let ghost listed = keys@;
        assert(text::models(listed) =~= Seq::new(
            group.len(),
            |m: int| (order::firsts(group)[m], m as nat),
        ));
        let ranking = sorted_vec(keys);
        let ghost ranks = order::ranked(order::firsts(group));
        assert(text::models(ranking@) == ranks);
        assert(ranking@.len() == ranks.len());
        assert(ranks[0] == ranking@[0].model());
        assert(group[ranks[0].1 as int] == candidate_model(same@[ranks[0].1 as int]));
        let mut object_paths: Vec<String> = Vec::new();
        let mut m: usize = 0;
        while m < ranking.len()
            invariant
                m <= ranking@.len(),
                object_paths@.len() == m,
                forall|n: int| 0 <= n < m ==> (#[trigger] object_paths@[n])@ == ranking@[n].0@,
            decreases ranking@.len() - m,
        {
            object_paths.push(ranking[m].0.clone());
            m = m + 1;
        }
        proof {
            assert forall|n: int| 0 <= n < ranks.len() implies #[trigger] ranks[n].0
                == object_paths@[n]@ by {
                assert(text::models(ranking@)[n] == ranking@[n].model());
            }
            assert(text::models(object_paths@) =~= order::firsts(ranks));
        }
        let record = Record {
            schema_path: ranking[0].0.clone(),
            object_paths,
            schema: copy_schema(&same[ranking[0].1].1),
            array_parent: None,
            array_index_paths: Vec::new(),
        };
        proof {
            assert(text::models(record.array_index_paths@) =~= Seq::<Seq<nat>>::empty());
            assert(record_model(record) == merged_record(group));
        }
        records.push(record);
        i = i + 1;
    }
    assert(records_model(records@) =~= target);
    records
}

/// The records of objects that stand in fields, or alone.
pub fn object_records(outdir: &str, occurrences: &Vec<&Occurrence>) -> (r: Vec<Record>)
    ensures
        records_model(r@) == merged(object_candidates(outdir@, refs_model(occurrences@))),
{
    let ghost occs = refs_model(occurrences@);
    let ghost pairs = place_pairs(occs);
    let mut items: Vec<(Vec<String>, &Vec<(String, JsonValue)>)> = Vec::new();
    let mut i: usize = 0;
    while i < occurrences.len()
        invariant
            i <= occurrences@.len(),
            items@.len() == i,
            forall|j: int|
                0 <= j < i ==> text::models((#[trigger] items@[j]).0@) == text::models(
                    occurrences@[j].segments@,
                ) && items@[j].1@ == occurrences@[j].value@,
        decreases occurrences@.len() - i,
    {
        items.push((copy_texts(&occurrences[i].segments), &occurrences[i].value));
        i = i + 1;
    }
    let ghost given = items@;
    let ghost f = |v: &Vec<(String, JsonValue)>| json::fields_model(v@);
    proof {
        assert(pairs =~= Seq::new(given.len(), |i: int| (given[i].0.model(), f(given[i].1))));
        assert(ordmap::key_models(given) =~= order::firsts(pairs));
    }
    let groups = group_by(items);
    let ghost places = groups.keys();
    let ghost target = object_candidates(outdir@, occs);
    let mut candidates: Vec<(String, Vec<(String, String)>)> = Vec::new();
    let mut i: usize = 0;
    while i < groups.entries.len()
        invariant
            i <= groups.entries@.len(),
            places == groups.keys(),
            places == order::sorted_set(order::firsts(pairs)),
            pairs == place_pairs(occs),
            pairs == Seq::new(given.len(), |i: int| (given[i].0.model(), f(given[i].1))),
            f == (|v: &Vec<(String, JsonValue)>| json::fields_model(v@)),
            forall|j: int|
                0 <= j < groups.entries@.len() ==> (#[trigger] groups.entries@[j]).1@
                    == ordmap::picked(given, groups.entries@[j].0.model()),
            target == object_candidates(outdir@, occs),
            candidates@.len() == i,
            forall|j: int| 0 <= j < i ==> candidate_model(#[trigger] candidates@[j]) == target[j],
            forall|j: int|
                0 <= j < i ==> order::ascending(json::schema_names((#[trigger] target[j]).1)),
        decreases groups.entries@.len() - i,
    {
        let segments = &groups.entries[i].0;
        let objects = &groups.entries[i].1;
        proof {
            ordmap::lemma_picked(given, f, places[i as int]);
            assert(order::under(pairs, places[i as int]) =~= label::objects_model(objects@));
            label::lemma_schema_names(
                path::child_prefix(outdir@, places[i as int]),
                order::under(pairs, places[i as int]),
            );
        }
        let base = reference_path(outdir, segments);
        let mut prefix = if segments.len() == 0 {
            outdir.to_string()
        } else {
            base.clone()
        };
        prefix.append("/");
        let schema = schema_for_objects(prefix.as_str(), objects);
        candidates.push((json_path(base.as_str()), schema));
        i = i + 1;
    }
    assert(candidates_model(candidates@) =~= target);
    merge_candidates(candidates)
}

pub open spec fn refs_model(occurrences: Seq<&Occurrence>) -> Seq<Occ<Seq<Seq<char>>>> {
    Seq::new(occurrences.len(), |i: int| walk::occurrence_model(*occurrences[i]))
}

/// The positions at which a schema occurs, in ascending order.
pub open spec fn positions(refs: Seq<(Seq<char>, Seq<nat>)>, canon: Seq<char>) -> Seq<Seq<nat>> {
    order::sorted_set(order::under(refs, canon))
}

/// The schemas that occur somewhere, each with its first position.
pub open spec fn variant_keys(
    schemas: Seq<(Seq<char>, Seq<(Seq<char>, Seq<char>)>)>,
    refs: Seq<(Seq<char>, Seq<nat>)>,
) -> Seq<(Seq<nat>, Seq<char>)>
    decreases schemas.len(),
{
    if schemas.len() == 0 {
        Seq::empty()
    } else {
        let canon = schemas.last().0;
        let rest = variant_keys(schemas.drop_last(), refs);
        if positions(refs, canon).len() > 0 {
            rest.push((positions(refs, canon)[0], canon))
        } else {
            rest
        }
    }
}

pub open spec fn item_record(
    schema_path: Seq<char>,
    array_path: Seq<char>,
    schema: Seq<(Seq<char>, Seq<char>)>,
    index_paths: Seq<Seq<nat>>,
) -> Rec {
    Rec {
        schema_path,
        object_paths: seq![schema_path],
        schema,
        array_parent: Some(array_path),
        index_paths,
    }
}

/// The schema that stands for an array whose items have different schemas: a reference to the
/// directory of those schemas.
pub open spec fn container_schema(base: Seq<char>) -> Seq<(Seq<char>, Seq<char>)> {
    seq![("$refs_mut"@, base + "/"@)]
}

pub open spec fn container_record(base: Seq<char>) -> Rec {
    Rec {
        schema_path: path::json_file(base),
        object_paths: seq![path::json_file(base)],
        schema: container_schema(base),
        array_parent: None,
        index_paths: Seq::empty(),
    }
}

/// The path of the schema of the items at `base` that starts at position `first`.
pub open spec fn variant_path(base: Seq<char>, first: Seq<nat>) -> Seq<char> {
    path::json_file(base + "/"@ + path::file_stem(first))
}

/// The records of the items at `base`. `schemas` holds the distinct schemas by their canonical
/// texts, `refs` the position of every item with the canonical text of its schema. A single
/// schema has the path of the array. Several are ordered by their first positions, which also
/// name them; `container` adds a record that refers to them.
pub open spec fn item_records(
    base: Seq<char>,
    schemas: Seq<(Seq<char>, Seq<(Seq<char>, Seq<char>)>)>,
    refs: Seq<(Seq<char>, Seq<nat>)>,
    container: bool,
) -> Seq<Rec> {
    if schemas.len() == 1 {
        seq![
            item_record(
                path::json_file(base),
                path::json_file(base),
                schemas[0].1,
                positions(refs, schemas[0].0),
            ),
        ]
    } else {
        (if container {
            seq![container_record(base)]
        } else {
            Seq::empty()
        }) + variants(base, schemas, refs)
    }
}

pub open spec fn variants(
    base: Seq<char>,
    schemas: Seq<(Seq<char>, Seq<(Seq<char>, Seq<char>)>)>,
    refs: Seq<(Seq<char>, Seq<nat>)>,
) -> Seq<Rec> {
    let keys = order::sorted_set(variant_keys(schemas, refs));
    Seq::new(
        keys.len(),
        |i: int|
            item_record(
                variant_path(base, keys[i].0),
                path::json_file(base),
                order::under(schemas, keys[i].1)[0],
                positions(refs, keys[i].1),
            ),
    )
}

pub open spec fn position_model(p: (String, Vec<usize>)) -> (Seq<char>, Seq<nat>) {
    (p.0@, text::models(p.1@))
}

pub open spec fn positions_model(refs: Seq<(String, Vec<usize>)>) -> Seq<(Seq<char>, Seq<nat>)> {
    Seq::new(refs.len(), |i: int| position_model(refs[i]))
}

fn copy_positions(index_paths: &Vec<Vec<usize>>) -> (r: Vec<Vec<usize>>)
    ensures
        text::models(r@) == text::models(index_paths@),
{
    let mut out: Vec<Vec<usize>> = Vec::new();
    let mut i: usize = 0;
    while i < index_paths.len()
        invariant
            i <= index_paths@.len(),
            out@.len() == i,
            forall|j: int| 0 <= j < i ==> (#[trigger] out@[j])@ == index_paths@[j]@,
        decreases index_paths@.len() - i,
    {
        out.push(copy_indexes(&index_paths[i]));
        i = i + 1;
    }
    assert(text::models(out@) =~= text::models(index_paths@));
    out
}

/// The positions of the schema `canon` in `groups`.
pub(crate) fn positions_in(groups: &OrdMap<String, Vec<Vec<usize>>>, canon: &String, Ghost(refs): Ghost<
    Seq<(String, Vec<usize>)>,
>) -> (r: Vec<Vec<usize>>)
    requires
        groups.wf(),
        groups.keys() == order::sorted_set(ordmap::key_models(refs)),
        forall|j: int|
            0 <= j < groups.entries@.len() ==> (#[trigger] groups.entries@[j]).1@
                == ordmap::picked(refs, groups.entries@[j].0.model()),
    ensures
        text::models(r@) == positions(positions_model(refs), canon@),
{
    let ghost f = |v: Vec<usize>| text::models(v@);
    let ghost pairs = positions_model(refs);
    proof {
        assert(pairs =~= Seq::new(refs.len(), |i: int| (refs[i].0.model(), f(refs[i].1))));
        ordmap::lemma_picked(refs, f, canon@);
        order::lemma_sorted_set(ordmap::key_models(refs));
        order::lemma_under_nonempty(pairs, canon@);
        assert(order::firsts(pairs) =~= ordmap::key_models(refs));
    }
    let (at, found) = groups.locate(canon);
    if found {
        let copied = copy_positions(&groups.entries[at].1);
        assert(text::models(copied@) =~= order::under(pairs, canon@));
        sorted_vec(copied)
    } else {
        let none: Vec<Vec<usize>> = Vec::new();
        assert(order::under(pairs, canon@) =~= Seq::empty());
        assert(text::models(none@) =~= positions(pairs, canon@));
        none
    }
}

fn single_path(path: &String) -> (r: Vec<String>)
    ensures
        text::models(r@) == seq![path@],
{
    let mut out: Vec<String> = Vec::new();
    out.push(path.clone());
    assert(text::models(out@) =~= seq![path@]);
    out
}

fn make_item_record(
    schema_path: String,
    array_path: String,
    schema: Vec<(String, String)>,
    array_index_paths: Vec<Vec<usize>>,
) -> (r: Record)
    ensures
        record_model(r) == item_record(
            schema_path@,
            array_path@,
            json::schema_model(schema@),
            text::models(array_index_paths@),
        ),
{
    Record {
        object_paths: single_path(&schema_path),
        schema_path,
        schema,
        array_parent: Some(array_path),
        array_index_paths,
    }
}

fn make_container_record(base: &str) -> (r: Record)
    ensures
        record_model(r) == container_record(base@),
{
    let mut target = base.to_string();
    target.append("/");
    let mut schema: Vec<(String, String)> = Vec::new();
    schema.push(("$refs_mut".to_string(), target));
    let schema_path = json_path(base);
    let r = Record {
        object_paths: single_path(&schema_path),
        schema_path,
        schema,
        array_parent: None,
        array_index_paths: Vec::new(),
    };
    proof {
        assert(json::schema_model(r.schema@) =~= container_schema(base@));
        assert(text::models(r.array_index_paths@) =~= Seq::<Seq<nat>>::empty());
    }
    r
}

/// The records of the items at `base`.
pub fn records_of_items(
    base: &str,
    schemas: &Vec<(String, Vec<(String, String)>)>,
    refs: Vec<(String, Vec<usize>)>,
    container: bool,
) -> (r: Vec<Record>)
    requires
        order::ascending(order::firsts(candidates_model(schemas@))),
    ensures
        records_model(r@) == item_records(
            base@,
            candidates_model(schemas@),
            positions_model(refs@),
            container,
        ),
{
    let ghost given = refs@;
    let ghost pairs = positions_model(given);
    let ghost models = candidates_model(schemas@);
    let groups = group_by(refs);
    let mut records: Vec<Record> = Vec::new();
    if schemas.len() == 1 {
        assert(models[0] == candidate_model(schemas@[0]));
        let found = positions_in(&groups, &schemas[0].0, Ghost(given));
        records.push(
            make_item_record(json_path(base), json_path(base), copy_schema(&schemas[0].1), found),
        );
        assert(records_model(records@) =~= item_records(base@, models, pairs, container));
        return records;
    }
    if container {
        records.push(make_container_record(base));
    }
    let ghost head = records_model(records@);
    assert(head =~= if container {
        seq![container_record(base@)]
    } else {
        Seq::empty()
    });
    let mut ordered: OrdMap<(Vec<usize>, String), (Vec<(String, String)>, Vec<Vec<usize>>)> =
        OrdMap::new();
    let mut i: usize = 0;
    assert(models.take(0) =~= Seq::empty());
    while i < schemas.len()
        invariant
            order::ascending(order::firsts(models)),
            models == candidates_model(schemas@),
            pairs == positions_model(given),
            groups.wf(),
            groups.keys() == order::sorted_set(ordmap::key_models(given)),
            forall|j: int|
                0 <= j < groups.entries@.len() ==> (#[trigger] groups.entries@[j]).1@
                    == ordmap::picked(given, groups.entries@[j].0.model()),
            i <= schemas@.len(),
            ordered.wf(),
            ordered.keys() == order::sorted_set(variant_keys(models.take(i as int), pairs)),
            forall|k: (Seq<nat>, Seq<char>)| #[trigger]
                ordered.map().contains_key(k) ==> json::schema_model(ordered.map()[k].0@)
                    == order::under(models, k.1)[0] && text::models(ordered.map()[k].1@)
                    == positions(pairs, k.1),
        decreases schemas@.len() - i,
    {
        proof {
            assert(models.take(i + 1).drop_last() =~= models.take(i as int));
            assert(models.take(i + 1).last() == candidate_model(schemas@[i as int]));
            order::lemma_under_unique(models, i as int);
        }
        let found = positions_in(&groups, &schemas[i].0, Ghost(given));
        if found.len() > 0 {
            let first = copy_indexes(&found[0]);
            let ghost key = (text::models(first@), schemas@[i as int].0@);
            proof {
                assert(text::models(found@)[0] == found@[0].model());
                let listed = variant_keys(models.take(i + 1), pairs);
                assert(listed == variant_keys(models.take(i as int), pairs).push(key));
                assert(listed.drop_last() =~= variant_keys(models.take(i as int), pairs));
            }
            ordered.insert((first, schemas[i].0.clone()), (copy_schema(&schemas[i].1), found));
        }
        i = i + 1;
    }
    assert(models.take(models.len() as int) =~= models);
    let ghost keys = ordered.keys();
    let ghost tail = variants(base@, models, pairs);
    let ghost entries = ordered.entries@;
    proof {
        assert forall|j: int| 0 <= j < entries.len() implies json::schema_model(
            (#[trigger] entries[j]).1.0@,
        ) == order::under(models, keys[j].1)[0] && text::models(entries[j].1.1@) == positions(
            pairs,
            keys[j].1,
        ) && keys[j] == entries[j].0.model() by {
            ordered.lemma_entry(j);
        }
        assert(head + tail.take(0) =~= head);
    }
    for entry in it: ordered.entries
        invariant
            it.seq() == entries,
            keys.len() == entries.len(),
            keys == order::sorted_set(variant_keys(models, pairs)),
            forall|j: int|
                0 <= j < entries.len() ==> json::schema_model((#[trigger] entries[j]).1.0@)
                    == order::under(models, keys[j].1)[0] && text::models(entries[j].1.1@)
                    == positions(pairs, keys[j].1) && keys[j] == entries[j].0.model(),
            tail == variants(base@, models, pairs),
            records_model(records@) == head + tail.take(it.index() as int),
    {
        let ghost n = it.index() as int;
        let ghost before = records@;
        assert(entry == entries[n]);
        let mut stem = base.to_string();
        stem.append("/");
        stem.append(index_path_file_stem(&entry.0.0).as_str());
        let record = make_item_record(
            json_path(stem.as_str()),
            json_path(base),
            entry.1.0,
            entry.1.1,
        );
        proof {
            assert(record_model(record) == tail[n]);
        }
        records.push(record);
        assert(records_model(records@) =~= records_model(before).push(tail[n]));
        assert(records_model(records@) =~= head + tail.take(n + 1));
    }
    assert(tail.take(tail.len() as int) =~= tail);
    records
}

/// The items of a place with the schema of each: canonical text and schema.
pub open spec fn item_rows(prefix: Seq<char>, items: Seq<(Seq<nat>, Seq<(Seq<char>, Json)>)>) -> Seq<
    (Seq<char>, Seq<(Seq<char>, Seq<char>)>),
> {
    Seq::new(
        items.len(),
        |i: int|
            (
                json::compact_json(label::schema_of(prefix, seq![items[i].1])),
                label::schema_of(prefix, seq![items[i].1]),
            ),
    )
}

/// The positions of the items with the canonical text of each.
pub open spec fn item_refs(prefix: Seq<char>, items: Seq<(Seq<nat>, Seq<(Seq<char>, Json)>)>) -> Seq<
    (Seq<char>, Seq<nat>),
> {
    Seq::new(items.len(), |i: int| (item_rows(prefix, items)[i].0, items[i].0))
}

/// The distinct schemas by their canonical texts, in ascending order.
pub open spec fn distinct_rows(rows: Seq<(Seq<char>, Seq<(Seq<char>, Seq<char>)>)>) -> Seq<
    (Seq<char>, Seq<(Seq<char>, Seq<char>)>),
> {
    let canons = order::sorted_set(order::firsts(rows));
    Seq::new(canons.len(), |i: int| (canons[i], order::under(rows, canons[i])[0]))
}

pub open spec fn place_items<P>(occs: Seq<Occ<P>>) -> Seq<
    (P, (Seq<nat>, Seq<(Seq<char>, Json)>)),
> {
    Seq::new(occs.len(), |i: int| (occs[i].at, (occs[i].indexes, occs[i].fields)))
}

/// The records of the items at one place.
pub open spec fn place_records(
    outdir: Seq<char>,
    occs: Seq<Occ<Seq<Seq<char>>>>,
    place: Seq<Seq<char>>,
    container: bool,
) -> Seq<Rec> {
    let prefix = path::child_prefix(outdir, place);
    let items = order::under(place_items(occs), place);
    item_records(
        path::reference(outdir, place),
        distinct_rows(item_rows(prefix, items)),
        item_refs(prefix, items),
        container,
    )
}

pub open spec fn places_records(
    outdir: Seq<char>,
    occs: Seq<Occ<Seq<Seq<char>>>>,
    places: Seq<Seq<Seq<char>>>,
    container: bool,
) -> Seq<Rec>
    decreases places.len(),
{
    if places.len() == 0 {
        Seq::empty()
    } else {
        places_records(outdir, occs, places.drop_last(), container) + place_records(
            outdir,
            occs,
            places.last(),
            container,
        )
    }
}

/// The records of items, place by place.
pub open spec fn collection_records(
    outdir: Seq<char>,
    occs: Seq<Occ<Seq<Seq<char>>>>,
    container: bool,
) -> Seq<Rec> {
    places_records(
        outdir,
        occs,
        order::sorted_set(order::firsts(place_items(occs))),
        container,
    )
}

/// Some occurrence has no position.
pub open spec fn lacks_position<P>(occs: Seq<Occ<P>>) -> bool {
    exists|i: int| 0 <= i < occs.len() && (#[trigger] occs[i]).indexes.len() == 0
}

/// The records of the items at one place.
fn records_of_place(
    outdir: &str,
    segments: &Vec<String>,
    items: &Vec<&Occurrence>,
    container: bool,
    Ghost(given): Ghost<Seq<(Seq<nat>, Seq<(Seq<char>, Json)>)>>,
) -> (r: Vec<Record>)
    requires
        given.len() == items@.len(),
        forall|i: int|
            0 <= i < given.len() ==> (#[trigger] given[i]) == (
                text::models(items@[i].array_indexes@),
                json::fields_model(items@[i].value@),
            ),
    ensures
        records_model(r@) == item_records(
            path::reference(outdir@, text::models(segments@)),
            distinct_rows(
                item_rows(path::child_prefix(outdir@, text::models(segments@)), given),
            ),
            item_refs(path::child_prefix(outdir@, text::models(segments@)), given),
            container,
        ),
{
    let base = reference_path(outdir, segments);
    let mut prefix = if segments.len() == 0 {
        outdir.to_string()
    } else {
        base.clone()
    };
    prefix.append("/");
    let ghost rows = item_rows(prefix@, given);
    let mut schemas: Vec<(String, Vec<(String, String)>)> = Vec::new();
    let mut refs: Vec<(String, Vec<usize>)> = Vec::new();
    let mut i: usize = 0;
    while i < items.len()
        invariant
            i <= items@.len(),
            rows == item_rows(prefix@, given),
            given.len() == items@.len(),
            forall|j: int|
                0 <= j < given.len() ==> (#[trigger] given[j]) == (
                    text::models(items@[j].array_indexes@),
                    json::fields_model(items@[j].value@),
                ),
            schemas@.len() == i,
            refs@.len() == i,
            forall|j: int| 0 <= j < i ==> candidate_model(#[trigger] schemas@[j]) == rows[j],
            forall|j: int|
                0 <= j < i ==> position_model(#[trigger] refs@[j]) == (rows[j].0, given[j].0),
        decreases items@.len() - i,
    {
        let mut one: Vec<&Vec<(String, JsonValue)>> = Vec::new();
        one.push(&items[i].value);
        proof {
            assert(given[i as int].1 == json::fields_model(items@[i as int].value@));
            assert(label::objects_model(one@) =~= seq![given[i as int].1]);
            label::lemma_schema_names(prefix@, seq![given[i as int].1]);
        }
        let schema = schema_for_objects(prefix.as_str(), &one);
        let canonical = canonical_json(&schema);
        refs.push((canonical.clone(), copy_indexes(&items[i].array_indexes)));
        schemas.push((canonical, schema));
        i = i + 1;
    }
    let ghost f = |v: Vec<(String, String)>| json::schema_model(v@);
    let ghost listed = schemas@;
    proof {
        assert(rows =~= Seq::new(listed.len(), |i: int| (listed[i].0.model(), f(listed[i].1))));
        assert(ordmap::key_models(listed) =~= order::firsts(rows));
        assert(positions_model(refs@) =~= item_refs(prefix@, given));
        order::lemma_sorted_set(order::firsts(rows));
    }
    let groups = group_by(schemas);
    let ghost canons = groups.keys();
    let ghost target = distinct_rows(rows);
    let mut distinct: Vec<(String, Vec<(String, String)>)> = Vec::new();
    let mut i: usize = 0;
    while i < groups.entries.len()
        invariant
            i <= groups.entries@.len(),
            canons == groups.keys(),
            canons == order::sorted_set(order::firsts(rows)),
            f == (|v: Vec<(String, String)>| json::schema_model(v@)),
            rows == Seq::new(listed.len(), |i: int| (listed[i].0.model(), f(listed[i].1))),
            forall|j: int|
                0 <= j < groups.entries@.len() ==> (#[trigger] groups.entries@[j]).1@
                    == ordmap::picked(listed, groups.entries@[j].0.model()),
            target == distinct_rows(rows),
            distinct@.len() == i,
            forall|j: int| 0 <= j < i ==> candidate_model(#[trigger] distinct@[j]) == target[j],
        decreases groups.entries@.len() - i,
    {
        let same = &groups.entries[i].1;
        proof {
            ordmap::lemma_picked(listed, f, canons[i as int]);
            order::lemma_sorted_set(order::firsts(rows));
            assert(canons.contains(canons[i as int]));
            order::lemma_under_nonempty(rows, canons[i as int]);
            assert(order::under(rows, canons[i as int])[0] == f(same@[0]));
        }
        distinct.push((groups.entries[i].0.clone(), copy_schema(&same[0])));
        i = i + 1;
    }
    proof {
        assert(candidates_model(distinct@) =~= target);
        assert(order::firsts(target) =~= canons);
    }
    records_of_items(base.as_str(), &distinct, refs, container)
}

/// A variant is a schema with its first position.
pub proof fn lemma_variant_keys(
    schemas: Seq<(Seq<char>, Seq<(Seq<char>, Seq<char>)>)>,
    refs: Seq<(Seq<char>, Seq<nat>)>,
    k: (Seq<nat>, Seq<char>),
)
    ensures
        variant_keys(schemas, refs).contains(k) <==> (exists|j: int|
            0 <= j < schemas.len() && (#[trigger] schemas[j]).0 == k.1) && positions(
            refs,
            k.1,
        ).len() > 0 && positions(refs, k.1)[0] == k.0,
    decreases schemas.len(),
{
    if schemas.len() > 0 {
        let d = schemas.drop_last();
        let canon = schemas.last().0;
        let n = schemas.len() - 1;
        lemma_variant_keys(d, refs, k);
        let before = variant_keys(d, refs);
        let whole = variant_keys(schemas, refs);
        assert(schemas[n].0 == canon);
        if before.contains(k) {
            let j = choose|j: int| 0 <= j < d.len() && (#[trigger] d[j]).0 == k.1;
            assert(schemas[j].0 == k.1);
            let i = choose|i: int| 0 <= i < before.len() && before[i] == k;
            assert(whole[i] == k);
        }
        if whole.contains(k) && !before.contains(k) {
            let i = choose|i: int| 0 <= i < whole.len() && whole[i] == k;
            if i < before.len() {
                assert(before[i] == k);
            }
        }
        if (exists|j: int| 0 <= j < schemas.len() && (#[trigger] schemas[j]).0 == k.1) && positions(
            refs,
            k.1,
        ).len() > 0 && positions(refs, k.1)[0] == k.0 {
            let j = choose|j: int| 0 <= j < schemas.len() && (#[trigger] schemas[j]).0 == k.1;
            if j < n {
                assert(d[j].0 == k.1);
                assert(before.contains(k));
            } else {
                assert(whole[before.len() as int] == k);
            }
        }
    }
}

/// The records of items, place by place; none if an item has no position.
fn records_of_collection(outdir: &str, occurrences: &Vec<&Occurrence>, container: bool) -> (r:
    Option<Vec<Record>>)
    ensures
        r is None <==> lacks_position(refs_model(occurrences@)),
        r matches Some(records) ==> records_model(records@) == collection_records(
            outdir@,
            refs_model(occurrences@),
            container,
        ),
{
    let ghost occs = refs_model(occurrences@);
    let mut items: Vec<(Vec<String>, &Occurrence)> = Vec::new();
    let mut i: usize = 0;
    while i < occurrences.len()
        invariant
            i <= occurrences@.len(),
            occs == refs_model(occurrences@),
            items@.len() == i,
            forall|j: int|
                0 <= j < i ==> text::models((#[trigger] items@[j]).0@) == occs[j].at
                    && items@[j].1 == occurrences@[j],
            forall|j: int| 0 <= j < i ==> (#[trigger] occs[j]).indexes.len() > 0,
        decreases occurrences@.len() - i,
    {
        assert(occs[i as int].indexes.len() == occurrences@[i as int].array_indexes@.len());
        if occurrences[i].array_indexes.len() == 0 {
            return None;
        }
        items.push((copy_texts(&occurrences[i].segments), occurrences[i]));
        i = i + 1;
    }
    let ghost pairs = place_items(occs);
    let ghost given = items@;
    let ghost f = |o: &Occurrence|
        (text::models(o.array_indexes@), json::fields_model(o.value@));
    proof {
        assert(pairs =~= Seq::new(given.len(), |i: int| (given[i].0.model(), f(given[i].1))));
        assert(ordmap::key_models(given) =~= order::firsts(pairs));
    }
    let groups = group_by(items);
    let ghost places = groups.keys();
    let mut records: Vec<Record> = Vec::new();
    let mut i: usize = 0;
    proof {
        assert(places.take(0) =~= Seq::empty());
        assert(records_model(records@) =~= Seq::empty());
    }
    while i < groups.entries.len()
        invariant
            i <= groups.entries@.len(),
            places == groups.keys(),
            places == order::sorted_set(order::firsts(pairs)),
            pairs == place_items(occs),
            pairs == Seq::new(given.len(), |i: int| (given[i].0.model(), f(given[i].1))),
            f == (|o: &Occurrence|
                (text::models(o.array_indexes@), json::fields_model(o.value@))),
            forall|j: int|
                0 <= j < groups.entries@.len() ==> (#[trigger] groups.entries@[j]).1@
                    == ordmap::picked(given, groups.entries@[j].0.model()),
            records_model(records@) == places_records(
                outdir@,
                occs,
                places.take(i as int),
                container,
            ),
        decreases groups.entries@.len() - i,
    {
        let ghost here = order::under(pairs, places[i as int]);
        proof {
            ordmap::lemma_picked(given, f, places[i as int]);
            assert(places.take(i + 1).drop_last() =~= places.take(i as int));
            assert(places.take(i + 1).last() == places[i as int]);
        }
        let mut more = records_of_place(
            outdir,
            &groups.entries[i].0,
            &groups.entries[i].1,
            container,
            Ghost(here),
        );
        let ghost before = records@;
        let ghost added = more@;
        records.append(&mut more);
        assert(records_model(records@) =~= records_model(before) + records_model(added));
        i = i + 1;
    }
    assert(places.take(places.len() as int) =~= places);
    Some(records)
}

/// Why no schemas could be built.
#[derive(Clone, Copy, PartialEq, Eq, Structural, Debug)]
pub enum BuildError {
    ArrayItemMissingIndexPath,
    RootCollectionItemMissingIndexPath,
}

impl BuildError {
    pub fn message(self) -> (r: &'static str)
        ensures
            r@ == match self {
                BuildError::ArrayItemMissingIndexPath => "array item missing index path"@,
                BuildError::RootCollectionItemMissingIndexPath =>
                    "root collection item missing index path"@,
            },
    {
        match self {
            BuildError::ArrayItemMissingIndexPath => "array item missing index path",
            BuildError::RootCollectionItemMissingIndexPath => "root collection item missing index path",
        }
    }
}

/// The records of array items.
pub fn array_records(outdir: &str, occurrences: &Vec<&Occurrence>) -> (r: Result<
    Vec<Record>,
    BuildError,
>)
    ensures
        match r {
            Ok(records) => !lacks_position(refs_model(occurrences@)) && records_model(records@)
                == collection_records(outdir@, refs_model(occurrences@), true),
            Err(e) => e == BuildError::ArrayItemMissingIndexPath && lacks_position(
                refs_model(occurrences@),
            ),
        },
{
    match records_of_collection(outdir, occurrences, true) {
        Some(records) => Ok(records),
        None => Err(BuildError::ArrayItemMissingIndexPath),
    }
}

/// The records of the items of top-level collections.
pub fn root_collection_records(outdir: &str, occurrences: &Vec<&Occurrence>) -> (r: Result<
    Vec<Record>,
    BuildError,
>)
    ensures
        match r {
            Ok(records) => !lacks_position(refs_model(occurrences@)) && records_model(records@)
                == collection_records(outdir@, refs_model(occurrences@), false),
            Err(e) => e == BuildError::RootCollectionItemMissingIndexPath && lacks_position(
                refs_model(occurrences@),
            ),
        },
{
    match records_of_collection(outdir, occurrences, false) {
        Some(records) => Ok(records),
        None => Err(BuildError::RootCollectionItemMissingIndexPath),
    }
}

/// Records, and the occurrences that they were made from.
#[derive(Debug)]
pub struct SchemaBuild {
    pub records: Vec<Record>,
    pub occurrences: Vec<Occurrence>,
}

/// All records of a walk: of objects in fields, of array items, of top-level items.
pub open spec fn built(outdir: Seq<char>, occs: Seq<Occ<Seq<Seq<char>>>>) -> Seq<Rec> {
    merged(object_candidates(outdir, walk::of_role(occs, Role::Object))) + collection_records(
        outdir,
        walk::of_role(occs, Role::ArrayItem),
        true,
    ) + collection_records(outdir, walk::of_role(occs, Role::RootCollection), false)
}

fn occurrences_of_role<'a>(occurrences: &'a Vec<Occurrence>, role: Role) -> (r: Vec<&'a Occurrence>)
    ensures
        refs_model(r@) == walk::of_role(walk::occurrences_model(occurrences@), role),
{
    let ghost occs = walk::occurrences_model(occurrences@);
    let mut out: Vec<&'a Occurrence> = Vec::new();
    let mut i: usize = 0;
    assert(occs.take(0) =~= Seq::empty());
    assert(refs_model(out@) =~= Seq::empty());
    while i < occurrences.len()
        invariant
            i <= occurrences@.len(),
            occs == walk::occurrences_model(occurrences@),
            refs_model(out@) == walk::of_role(occs.take(i as int), role),
        decreases occurrences@.len() - i,
    {
        assert(occs.take(i + 1).drop_last() =~= occs.take(i as int));
        assert(occs.take(i + 1).last() == occs[i as int]);
        if occurrences[i].role == role {
            let ghost before = out@;
            out.push(&occurrences[i]);
            assert(refs_model(out@) =~= refs_model(before).push(occs[i as int]));
        }
        i = i + 1;
    }
    assert(occs.take(occs.len() as int) =~= occs);
    out
}

/// A member of a collection without a position.
pub open spec fn unplaced(e: Entry) -> bool {
    e.collection && e.index is None
}

/// Walks all entries and builds the records of their objects.
pub fn build_schema_output(outdir: &str, entries: &Vec<Entry>) -> (r: Result<
    SchemaBuild,
    BuildError,
>)
    ensures
        match r {
            Ok(build) => walk::occurrences_model(build.occurrences@) == walk::walk_all(
                walk::entries_model(entries@),
                walk::by_keys(),
            ) && records_model(build.records@) == built(
                outdir@,
                walk::occurrences_model(build.occurrences@),
            ),
            Err(e) => e == BuildError::RootCollectionItemMissingIndexPath,
        },
        r is Err <==> exists|i: int| 0 <= i < entries@.len() && unplaced(#[trigger] entries@[i]),
{
    let occurrences = collect_occurrences(entries);
    let ghost roots = walk::entries_model(entries@);
    let ghost occs = walk::occurrences_model(occurrences@);
    proof {
        walk::lemma_walk_all_roles(roots, walk::by_keys());
        walk::lemma_of_role_all(occs, Role::ArrayItem);
        walk::lemma_of_role_all(roots, Role::RootCollection);
        assert forall|i: int| 0 <= i < roots.len() implies (#[trigger] roots[i]).role
            != Role::ArrayItem && (unplaced(entries@[i]) <==> roots[i].role
            == Role::RootCollection && roots[i].indexes.len() == 0) by {}
        let tops = walk::of_role(roots, Role::RootCollection);
        if lacks_position(tops) {
            let i = choose|i: int| 0 <= i < tops.len() && (#[trigger] tops[i]).indexes.len() == 0;
            assert(roots.contains(tops[i]));
            let j = choose|j: int| 0 <= j < roots.len() && roots[j] == tops[i];
            assert(unplaced(entries@[j]));
        }
        if exists|i: int| 0 <= i < entries@.len() && unplaced(#[trigger] entries@[i]) {
            let i = choose|i: int| 0 <= i < entries@.len() && unplaced(#[trigger] entries@[i]);
            assert(roots[i].role == Role::RootCollection);
            assert(tops.contains(roots[i]));
            let j = choose|j: int| 0 <= j < tops.len() && tops[j] == roots[i];
            assert(tops[j].indexes.len() == 0);
        }
    }
    let objects = occurrences_of_role(&occurrences, Role::Object);
    let items = occurrences_of_role(&occurrences, Role::ArrayItem);
    let tops = occurrences_of_role(&occurrences, Role::RootCollection);
    let mut records = object_records(outdir, &objects);
    let ghost first = records@;
    match array_records(outdir, &items) {
        Err(e) => {
            proof {
                let found = walk::of_role(occs, Role::ArrayItem);
                let i = choose|i: int|
                    0 <= i < found.len() && (#[trigger] found[i]).indexes.len() == 0;
                assert(occs.contains(found[i]));
                let j = choose|j: int| 0 <= j < occs.len() && occs[j] == found[i];
                assert(occs[j].indexes.len() > 0);
            }
            return Err(e);
        },
        Ok(mut more) => {
            let ghost added = more@;
            records.append(&mut more);
            assert(records_model(records@) =~= records_model(first) + records_model(added));
        },
    }
    let ghost second = records@;
    match root_collection_records(outdir, &tops) {
        Err(e) => Err(e),
        Ok(mut more) => {
            let ghost added = more@;
            records.append(&mut more);
            assert(records_model(records@) =~= records_model(second) + records_model(added));
            Ok(SchemaBuild { records, occurrences })
        },
    }
}

/// The records of all objects of the entries.
pub fn distinct_schemas(outdir: &str, entries: &Vec<Entry>) -> (r: Result<Vec<Record>, BuildError>)
    ensures
        match r {
            Ok(records) => records_model(records@) == built(
                outdir@,
                walk::walk_all(walk::entries_model(entries@), walk::by_keys()),
            ),
            Err(e) => e == BuildError::RootCollectionItemMissingIndexPath,
        },
        r is Err <==> exists|i: int| 0 <= i < entries@.len() && unplaced(#[trigger] entries@[i]),
{
    match build_schema_output(outdir, entries) {
        Ok(build) => Ok(build.records),
        Err(e) => Err(e),
    }
}

} // verus!
