//! The records and counts of streamed objects, from the tables of their facts.

use crate::index;
use crate::index::is_refs_mut_schema;
use crate::json;
use crate::kinds;
use crate::kinds::Kinds;
use crate::label;
use crate::label::{label_of_kinds, member_label_of_profile};
use crate::order;
use crate::ordmap;
use crate::ordmap::{group_by, range_of, Key, OrdMap};
use crate::path;
use crate::path::{child_path_base, index_path_file_stem, json_path};
use crate::records;
use crate::records::{copy_schema, merge_candidates, positions_in, records_of_items, Rec, Record};
use crate::statistics;
use crate::statistics::Statistics;
use crate::tables;
use crate::tables::{Tables, ValueAggregate};
use crate::text;
use crate::text::sorted_vec;
use crate::walk::{copy_indexes, Role};
use vstd::prelude::*;

verus! {

/// The kinds of the members of arrays at `base`, level by level from `depth` on, as long as
/// there are members.
pub open spec fn level_rows(
    facts: Map<(Seq<char>, nat), ValueAggregate>,
    base: Seq<char>,
    depth: nat,
) -> Seq<Kinds>
    decreases u64::MAX - depth,
{
    if depth < u64::MAX && facts.contains_key((base, depth)) && facts[(base, depth)].count != 0 {
        seq![kinds::tally_kinds(facts[(base, depth)].counts.tally())] + level_rows(
            facts,
            base,
            depth + 1,
        )
    } else {
        Seq::empty()
    }
}

/// The kinds of array members at `path_base`, level by level from `depth` on.
fn member_profile(
    facts: &OrdMap<(String, u64), ValueAggregate>,
    path_base: &str,
    depth: u64,
) -> (r: Vec<Kinds>)
    requires
        facts.wf(),
    ensures
        r@ == level_rows(facts.map(), path_base@, depth as nat),
{
    let mut out: Vec<Kinds> = Vec::new();
    let mut depth: u64 = depth;
    let ghost whole = level_rows(facts.map(), path_base@, depth as nat);
    assert(out@ + whole =~= whole);
    while depth < u64::MAX
        invariant_except_break
            whole == out@ + level_rows(facts.map(), path_base@, depth as nat),
        invariant
            facts.wf(),
        ensures
            out@ == whole,
        decreases u64::MAX - depth,
    {
        let key = (path_base.to_string(), depth);
        let found = match facts.get(&key) {
            Some(row) => if row.count != 0 {
                Some(row.counts)
            } else {
                None
            },
            None => None,
        };
        match found {
            Some(counts) => {
                let ghost before = out@;
                out.push(counts.kinds());
                assert(whole =~= out@ + level_rows(facts.map(), path_base@, depth as nat + 1));
            },
            None => {
                assert(out@ =~= whole);
                break;
            },
        }
        depth = depth + 1;
        assert(depth == u64::MAX ==> out@ =~= whole);
    }
    out
}

/// The label of the members of streamed arrays at `path_base`, inside of `depth` arrays.
pub fn streamed_array_member_label(
    facts: &OrdMap<(String, u64), ValueAggregate>,
    path_base: &str,
    depth: u64,
) -> (r: String)
    requires
        facts.wf(),
    ensures
        r@ == label::member_label(path_base@, level_rows(facts.map(), path_base@, depth as nat)),
{
    let profile = member_profile(facts, path_base, depth);
    member_label_of_profile(path_base, &profile)
}

/// The label of a streamed field at `child_base`.
pub open spec fn streamed_label(
    members: Map<(Seq<char>, nat), ValueAggregate>,
    child_base: Seq<char>,
    fact: ValueAggregate,
    total: int,
) -> Seq<char> {
    label::field_label(
        child_base,
        kinds::tally_kinds(fact.counts.tally()),
        fact.count < total,
        level_rows(members, child_base, 0),
    )
}

/// The field name, the number of objects that have it, and its kinds.
pub struct StreamFieldFacts {
    pub field_name: String,
    pub present_count: i64,
    pub counts: kinds::ValueTypeCounts,
}

/// The label of a field without arrays and objects.
pub fn primitive_label_from_counts(fact: &StreamFieldFacts, total: i64) -> (r: String)
    ensures
        r@ == label::scalar_label(
            kinds::tally_kinds(fact.counts.tally()),
            fact.present_count < total,
        ),
{
    label::scalar_label_of_kinds(fact.counts.kinds(), fact.present_count < total)
}

pub fn streamed_field_label(
    members: &OrdMap<(String, u64), ValueAggregate>,
    child_base: &str,
    fact: &StreamFieldFacts,
    total: i64,
) -> (r: String)
    requires
        members.wf(),
    ensures
        r@ == streamed_label(
            members.map(),
            child_base@,
            ValueAggregate { count: fact.present_count, counts: fact.counts },
            total as int,
        ),
{
    let k = fact.counts.kinds();
    if !k.array && !k.object {
        return primitive_label_from_counts(fact, total);
    }
    let array = if k.array {
        let mut label = "array(".to_string();
        label.append(streamed_array_member_label(members, child_base, 0).as_str());
        label.append(")");
        Some(label)
    } else {
        None
    };
    label_of_kinds(
        child_base,
        k,
        fact.present_count < total,
        array,
        Ghost(level_rows(members.map(), child_base@, 0)),
    )
}

/// The schema of the streamed objects at `base`, of which there are `total`.
pub open spec fn streamed_schema(t: Tables<String, String>, base: Seq<char>, total: int) -> Seq<
    (Seq<char>, Seq<char>),
> {
    let names = order::under(t.object_field_facts.keys(), base);
    Seq::new(
        names.len(),
        |i: int|
            (
                names[i],
                streamed_label(
                    t.array_member_facts.map(),
                    path::child(base, names[i]),
                    t.object_field_facts.map()[(base, names[i])],
                    total,
                ),
            ),
    )
}

pub proof fn lemma_streamed_names(t: Tables<String, String>, base: Seq<char>, total: int)
    requires
        t.wf(),
    ensures
        order::ascending(json::schema_names(streamed_schema(t, base, total))),
{
    let keys = t.object_field_facts.keys();
    order::lemma_under_ascending(keys, base);
    assert(json::schema_names(streamed_schema(t, base, total)) =~= order::under(keys, base));
}

/// The schema of the streamed objects at `path_base`.
pub fn schema_for_streamed_object_path(t: &Tables<String, String>, path_base: &str, total: i64) -> (r:
    Vec<(String, String)>)
    requires
        t.wf(),
    ensures
        json::schema_model(r@) == streamed_schema(*t, path_base@, total as int),
{
    let rows = &t.object_field_facts.entries;
    let ghost keys = t.object_field_facts.keys();
    let ghost target = streamed_schema(*t, path_base@, total as int);
    let base = path_base.to_string();
    let (low, high) = range_of(&t.object_field_facts, &base);
    let mut schema: Vec<(String, String)> = Vec::new();
    let mut i: usize = low;
    while i < high
        invariant
            t.wf(),
            *rows == t.object_field_facts.entries,
            keys == t.object_field_facts.keys(),
            order::under(keys, path_base@) == Seq::new(
                (high - low) as nat,
                |j: int| keys[low + j].1,
            ),
            forall|j: int| low <= j < high ==> (#[trigger] keys[j]).0 == path_base@,
            target == streamed_schema(*t, path_base@, total as int),
            low <= i <= high <= rows@.len(),
            schema@.len() == i - low,
            forall|j: int|
                0 <= j < schema@.len() ==> (#[trigger] schema@[j]).0@ == target[j].0
                    && schema@[j].1@ == target[j].1,
        decreases high - i,
    {
        proof {
            assert(keys[i as int] == (rows@[i as int].0.0@, rows@[i as int].0.1@));
            t.object_field_facts.lemma_entry(i as int);
        }
        let child_base = child_path_base(path_base, rows[i].0.1.as_str());
        let fact = StreamFieldFacts {
            field_name: rows[i].0.1.clone(),
            present_count: rows[i].1.count,
            counts: rows[i].1.counts,
        };
        let label = streamed_field_label(
            &t.array_member_facts,
            child_base.as_str(),
            &fact,
            total,
        );
        schema.push((fact.field_name, label));
        i = i + 1;
    }
    assert(json::schema_model(schema@) =~= target);
    schema
}

/// The paths of streamed objects with their schemas.
pub open spec fn streamed_candidates(t: Tables<String, String>) -> Seq<
    (Seq<char>, Seq<(Seq<char>, Seq<char>)>),
> {
    let bases = t.object_totals.keys();
    Seq::new(
        bases.len(),
        |i: int|
            (
                path::json_file(bases[i]),
                streamed_schema(t, bases[i], t.object_totals.map()[bases[i]] as int),
            ),
    )
}

/// The records of streamed objects that stand in fields.
pub fn streamed_object_records(t: &Tables<String, String>) -> (r: Vec<Record>)
    requires
        t.wf(),
    ensures
        records::records_model(r@) == records::merged(streamed_candidates(*t)),
{
    let ghost target = streamed_candidates(*t);
    let ghost bases = t.object_totals.keys();
    let rows = &t.object_totals.entries;
    let mut candidates: Vec<(String, Vec<(String, String)>)> = Vec::new();
    let mut i: usize = 0;
    while i < rows.len()
        invariant
            t.wf(),
            *rows == t.object_totals.entries,
            bases == t.object_totals.keys(),
            target == streamed_candidates(*t),
            i <= rows@.len(),
            candidates@.len() == i,
            forall|j: int|
                0 <= j < i ==> records::candidate_model(#[trigger] candidates@[j]) == target[j],
            forall|j: int|
                0 <= j < i ==> order::ascending(json::schema_names((#[trigger] target[j]).1)),
        decreases rows@.len() - i,
    {
        proof {
            t.object_totals.lemma_entry(i as int);
            assert(bases[i as int] == rows@[i as int].0@);
            lemma_streamed_names(*t, bases[i as int], rows@[i as int].1 as int);
        }
        let schema = schema_for_streamed_object_path(t, rows[i].0.as_str(), rows[i].1);
        candidates.push((json_path(rows[i].0.as_str()), schema));
        i = i + 1;
    }
    assert(records::candidates_model(candidates@) =~= target);
    merge_candidates(candidates)
}

/// The paths of streamed items with the role of rank `rank`, in ascending order.
pub open spec fn item_bases(t: Tables<String, String>, rank: nat) -> Seq<Seq<char>> {
    order::sorted_set(order::under(order::firsts(t.item_schema_counts.keys()), rank))
}

/// The distinct schemas of the items of one role and path by their canonical texts.
pub open spec fn stored_schemas(t: Tables<String, String>, place: (nat, Seq<char>)) -> Seq<
    (Seq<char>, Seq<(Seq<char>, Seq<char>)>),
> {
    let canons = order::under(t.item_schema_counts.keys(), place);
    Seq::new(
        canons.len(),
        |i: int|
            (
                canons[i],
                json::schema_model(t.item_schema_counts.map()[(place, canons[i])].schema@),
            ),
    )
}

/// The positions of the items of one role and path with their canonical texts.
pub open spec fn stored_refs(t: Tables<String, String>, place: (nat, Seq<char>)) -> Seq<
    (Seq<char>, Seq<nat>),
> {
    let found = order::under(t.item_schema_index_refs.keys(), place);
    Seq::new(
        found.len(),
        |i: int| (t.item_schema_index_refs.map()[(place, found[i])]@, found[i]),
    )
}

/// The records of the streamed items of one role, path by path.
pub open spec fn bases_records(
    t: Tables<String, String>,
    rank: nat,
    bases: Seq<Seq<char>>,
    container: bool,
) -> Seq<Rec>
    decreases bases.len(),
{
    if bases.len() == 0 {
        Seq::empty()
    } else {
        bases_records(t, rank, bases.drop_last(), container) + records::item_records(
            bases.last(),
            stored_schemas(t, (rank, bases.last())),
            stored_refs(t, (rank, bases.last())),
            container,
        )
    }
}

pub open spec fn streamed_item_records(t: Tables<String, String>, role: Role) -> Seq<Rec> {
    let rank = tables::role_rank(role);
    bases_records(t, rank, item_bases(t, rank), role == Role::ArrayItem)
}

fn bases_of_role(t: &Tables<String, String>, role: Role) -> (r: Vec<String>)
    requires
        t.wf(),
    ensures
        text::models(r@) == item_bases(*t, tables::role_rank(role)),
{
    let rows = &t.item_schema_counts.entries;
    let ghost places = order::firsts(t.item_schema_counts.keys());
    let ghost rank = tables::role_rank(role);
    let mut out: Vec<String> = Vec::new();
    let mut i: usize = 0;
    proof {
        assert(places.take(0) =~= Seq::empty());
        assert(text::models(out@) =~= Seq::empty());
    }
    while i < rows.len()
        invariant
            *rows == t.item_schema_counts.entries,
            places == order::firsts(t.item_schema_counts.keys()),
            rank == tables::role_rank(role),
            i <= rows@.len(),
            text::models(out@) == order::under(places.take(i as int), rank),
        decreases rows@.len() - i,
    {
        proof {
            assert(places.take(i + 1).drop_last() =~= places.take(i as int));
            assert(places.take(i + 1).last() == places[i as int]);
            assert(t.item_schema_counts.keys()[i as int] == rows@[i as int].0.model());
            assert(places[i as int] == (
                tables::role_rank(rows@[i as int].0.0.0),
                rows@[i as int].0.0.1@,
            ));
        }
        if rows[i].0.0.0 == role {
            let ghost before = out@;
            out.push(rows[i].0.0.1.clone());
            assert(text::models(out@) =~= text::models(before).push(places[i as int].1));
        }
        i = i + 1;
    }
    assert(places.take(places.len() as int) =~= places);
    sorted_vec(out)
}

fn schemas_at(t: &Tables<String, String>, role: Role, base: &String) -> (r: Vec<
    (String, Vec<(String, String)>),
>)
    requires
        t.wf(),
    ensures
        records::candidates_model(r@) == stored_schemas(*t, (tables::role_rank(role), base@)),
{
    let rows = &t.item_schema_counts.entries;
    let ghost keys = t.item_schema_counts.keys();
    let key = (role, base.clone());
    let ghost place = (tables::role_rank(role), base@);
    let ghost target = stored_schemas(*t, place);
    assert(key.model() == place);
    let (low, high) = range_of(&t.item_schema_counts, &key);
    let mut out: Vec<(String, Vec<(String, String)>)> = Vec::new();
    let mut i: usize = low;
    while i < high
        invariant
            t.wf(),
            *rows == t.item_schema_counts.entries,
            keys == t.item_schema_counts.keys(),
            order::under(keys, place) == Seq::new((high - low) as nat, |j: int| keys[low + j].1),
            forall|j: int| low <= j < high ==> (#[trigger] keys[j]).0 == place,
            target == stored_schemas(*t, place),
            low <= i <= high <= rows@.len(),
            out@.len() == i - low,
            forall|j: int|
                0 <= j < out@.len() ==> records::candidate_model(#[trigger] out@[j]) == target[j],
        decreases high - i,
    {
        proof {
            assert(keys[i as int] == rows@[i as int].0.model());
            t.item_schema_counts.lemma_entry(i as int);
        }
        out.push((rows[i].0.1.clone(), copy_schema(&rows[i].1.schema)));
        i = i + 1;
    }
    assert(records::candidates_model(out@) =~= target);
    out
}

fn refs_at(t: &Tables<String, String>, role: Role, base: &String) -> (r: Vec<(String, Vec<usize>)>)
    requires
        t.wf(),
    ensures
        records::positions_model(r@) == stored_refs(*t, (tables::role_rank(role), base@)),
{
    let rows = &t.item_schema_index_refs.entries;
    let ghost keys = t.item_schema_index_refs.keys();
    let key = (role, base.clone());
    let ghost place = (tables::role_rank(role), base@);
    let ghost target = stored_refs(*t, place);
    assert(key.model() == place);
    let (low, high) = range_of(&t.item_schema_index_refs, &key);
    let mut out: Vec<(String, Vec<usize>)> = Vec::new();
    let mut i: usize = low;
    while i < high
        invariant
            t.wf(),
            *rows == t.item_schema_index_refs.entries,
            keys == t.item_schema_index_refs.keys(),
            order::under(keys, place) == Seq::new((high - low) as nat, |j: int| keys[low + j].1),
            forall|j: int| low <= j < high ==> (#[trigger] keys[j]).0 == place,
            target == stored_refs(*t, place),
            low <= i <= high <= rows@.len(),
            out@.len() == i - low,
            forall|j: int|
                0 <= j < out@.len() ==> records::position_model(#[trigger] out@[j]) == target[j],
        decreases high - i,
    {
        proof {
            assert(keys[i as int] == rows@[i as int].0.model());
            t.item_schema_index_refs.lemma_entry(i as int);
        }
        out.push((rows[i].1.clone(), copy_indexes(&rows[i].0.1)));
        i = i + 1;
    }
    assert(records::positions_model(out@) =~= target);
    out
}

/// The records of the streamed items of one role.
pub fn records_of_streamed_items(t: &Tables<String, String>, role: Role) -> (r: Vec<Record>)
    requires
        t.wf(),
    ensures
        records::records_model(r@) == streamed_item_records(*t, role),
{
    let bases = bases_of_role(t, role);
    let ghost rank = tables::role_rank(role);
    let ghost all = item_bases(*t, rank);
    let mut records: Vec<Record> = Vec::new();
    let mut i: usize = 0;
    proof {
        assert(all.take(0) =~= Seq::empty());
        assert(records::records_model(records@) =~= Seq::empty());
    }
    while i < bases.len()
        invariant
            t.wf(),
            rank == tables::role_rank(role),
            all == item_bases(*t, rank),
            text::models(bases@) == all,
            i <= bases@.len(),
            records::records_model(records@) == bases_records(
                *t,
                rank,
                all.take(i as int),
                role == Role::ArrayItem,
            ),
        decreases bases@.len() - i,
    {
        let ghost place = (rank, bases@[i as int]@);
        proof {
            assert(all.take(i + 1).drop_last() =~= all.take(i as int));
            assert(all.take(i + 1).last() == bases@[i as int]@);
            order::lemma_under_ascending(t.item_schema_counts.keys(), place);
            assert(order::firsts(stored_schemas(*t, place)) =~= order::under(
                t.item_schema_counts.keys(),
                place,
            ));
        }
        let schemas = schemas_at(t, role, &bases[i]);
        let refs = refs_at(t, role, &bases[i]);
        let mut more = records_of_items(
            bases[i].as_str(),
            &schemas,
            refs,
            role == Role::ArrayItem,
        );
        let ghost before = records@;
        let ghost added = more@;
        records.append(&mut more);
        assert(records::records_model(records@) =~= records::records_model(before)
            + records::records_model(added));
        i = i + 1;
    }
    assert(all.take(all.len() as int) =~= all);
    records
}

/// All records of streamed objects.
pub open spec fn streamed_records(t: Tables<String, String>) -> Seq<Rec> {
    records::merged(streamed_candidates(t)) + streamed_item_records(t, Role::ArrayItem)
        + streamed_item_records(t, Role::RootCollection)
}

pub fn records_of_tables(t: &Tables<String, String>) -> (r: Vec<Record>)
    requires
        t.wf(),
    ensures
        records::records_model(r@) == streamed_records(*t),
{
    let mut records = streamed_object_records(t);
    let ghost first = records@;
    let mut items = records_of_streamed_items(t, Role::ArrayItem);
    let ghost second = items@;
    let mut tops = records_of_streamed_items(t, Role::RootCollection);
    let ghost third = tops@;
    records.append(&mut items);
    records.append(&mut tops);
    assert(records::records_model(records@) =~= records::records_model(first)
        + records::records_model(second) + records::records_model(third));
    records
}

/// The path of the schema of streamed items, given by role, path and canonical text.
pub open spec fn item_path(t: Tables<String, String>, k: ((nat, Seq<char>), Seq<char>)) -> Option<
    Seq<char>,
> {
    let found = records::positions(stored_refs(t, k.0), k.1);
    if k.0.0 == tables::role_rank(Role::Object) {
        None
    } else if stored_schemas(t, k.0).len() == 1 {
        Some(path::json_file(k.0.1))
    } else if found.len() > 0 {
        Some(records::variant_path(k.0.1, found[0]))
    } else {
        None
    }
}

/// The schema paths of the rows of streamed item schemas.
fn item_paths(t: &Tables<String, String>) -> (r: Vec<Option<String>>)
    requires
        t.wf(),
    ensures
        r@.len() == t.item_schema_counts.entries@.len(),
        forall|j: int|
            0 <= j < r@.len() ==> records::text_option(#[trigger] r@[j]) == item_path(
                *t,
                t.item_schema_counts.keys()[j],
            ),
{
    let rows = &t.item_schema_counts.entries;
    let ghost keys = t.item_schema_counts.keys();
    let mut out: Vec<Option<String>> = Vec::new();
    let mut i: usize = 0;
    while i < rows.len()
        invariant
            t.wf(),
            *rows == t.item_schema_counts.entries,
            keys == t.item_schema_counts.keys(),
            i <= rows@.len(),
            out@.len() == i,
            forall|j: int|
                0 <= j < i ==> records::text_option(#[trigger] out@[j]) == item_path(*t, keys[j]),
        decreases rows@.len() - i,
    {
        let role = rows[i].0.0.0;
        let base = rows[i].0.0.1.clone();
        let place = (role, base.clone());
        let (low, high) = range_of(&t.item_schema_counts, &place);
        let refs = refs_at(t, role, &base);
        let ghost given = refs@;
        let groups = group_by(refs);
        let single = high - low == 1;
        let ghost spot = place.model();
        assert(keys[i as int] == rows@[i as int].0.model());
        assert(low <= i < high);
        let ghost first = i as int;
        while i < high
            invariant
                t.wf(),
                *rows == t.item_schema_counts.entries,
                keys == t.item_schema_counts.keys(),
                spot == (tables::role_rank(role), base@),
                first <= i <= high <= rows@.len(),
                forall|j: int| first <= j < high ==> (#[trigger] keys[j]).0 == spot,
                single == (stored_schemas(*t, spot).len() == 1),
                records::positions_model(given) == stored_refs(*t, spot),
                groups.wf(),
                groups.keys() == order::sorted_set(ordmap::key_models(given)),
                forall|j: int|
                    0 <= j < groups.entries@.len() ==> (#[trigger] groups.entries@[j]).1@
                        == ordmap::picked(given, groups.entries@[j].0.model()),
                out@.len() == i,
                forall|j: int|
                    0 <= j < i ==> records::text_option(#[trigger] out@[j]) == item_path(
                        *t,
                        keys[j],
                    ),
            decreases high - i,
        {
            assert(keys[i as int] == rows@[i as int].0.model());
            assert(keys[i as int] == (spot, rows@[i as int].0.1@));
            let found = if role == Role::Object {
                None
            } else if single {
                Some(json_path(base.as_str()))
            } else {
                let positions = positions_in(&groups, &rows[i].0.1, Ghost(given));
                if positions.len() > 0 {
                    assert(text::models(positions@)[0] == text::models(positions@[0]@));
                    let mut stem = base.clone();
                    stem.append("/");
                    stem.append(index_path_file_stem(&positions[0]).as_str());
                    Some(json_path(stem.as_str()))
                } else {
                    None
                }
            };
            assert(role == Role::Object <==> spot.0 == tables::role_rank(Role::Object));
            out.push(found);
            i = i + 1;
        }
    }
    out
}

pub open spec fn sum(numbers: Seq<nat>) -> nat
    decreases numbers.len(),
{
    if numbers.len() == 0 {
        0
    } else {
        sum(numbers.drop_last()) + numbers.last()
    }
}

/// The sum of what stands under each first component.
pub open spec fn summed<K>(pairs: Seq<(K, nat)>) -> Map<K, nat> {
    Map::new(|k: K| order::firsts(pairs).contains(k), |k: K| sum(order::under(pairs, k)))
}

/// A schema whose objects are counted.
pub open spec fn counts_schema(
    definitions: Map<Seq<char>, Seq<(Seq<char>, Seq<char>)>>,
    p: Seq<char>,
) -> bool {
    definitions.contains_key(p) && !index::is_container(definitions[p])
}

/// The labels of the fields of the records, by schema path and name.
pub open spec fn type_pairs(recs: Seq<Rec>) -> Seq<((Seq<char>, Seq<char>), Seq<char>)>
    decreases recs.len(),
{
    if recs.len() == 0 {
        Seq::empty()
    } else {
        type_pairs(recs.drop_last()) + types_of(recs.last())
    }
}

pub open spec fn types_of(rec: Rec) -> Seq<((Seq<char>, Seq<char>), Seq<char>)> {
    Seq::new(
        rec.schema.len(),
        |i: int| ((rec.schema_path, rec.schema[i].0), rec.schema[i].1),
    )
}

/// The tables, and the schemas that their rows are counted for.
pub ghost struct StreamContext {
    pub tables: Tables<String, String>,
    pub definitions: Map<Seq<char>, Seq<(Seq<char>, Seq<char>)>>,
    pub paths: Map<Seq<char>, Seq<char>>,
    pub types: Map<(Seq<char>, Seq<char>), Seq<char>>,
}

pub open spec fn stream_context(t: Tables<String, String>, recs: Seq<Rec>) -> StreamContext {
    StreamContext {
        tables: t,
        definitions: index::last_wins(index::definition_pairs(recs)),
        paths: index::last_wins(index::path_pairs(recs)),
        types: index::last_wins(type_pairs(recs)),
    }
}

/// The schema path that counts the objects at `base`.
pub open spec fn object_target(c: StreamContext, base: Seq<char>) -> Option<Seq<char>> {
    let file = path::json_file(base);
    if c.paths.contains_key(file) && counts_schema(c.definitions, c.paths[file]) {
        Some(c.paths[file])
    } else {
        None
    }
}

/// The schema path that counts items.
pub open spec fn item_target(c: StreamContext, k: ((nat, Seq<char>), Seq<char>)) -> Option<
    Seq<char>,
> {
    if c.tables.item_schema_counts.map().contains_key(k) {
        match item_path(c.tables, k) {
            Some(p) => if counts_schema(c.definitions, p) {
                Some(p)
            } else {
                None
            },
            None => None,
        }
    } else {
        None
    }
}

/// The field that counts, where the schema has it.
pub open spec fn field_target(c: StreamContext, p: Option<Seq<char>>, name: Seq<char>) -> Option<
    (Seq<char>, Seq<char>),
> {
    match p {
        Some(p) => if c.types.contains_key((p, name)) {
            Some((p, name))
        } else {
            None
        },
        None => None,
    }
}

pub open spec fn add_if<K>(target: Option<K>, n: nat) -> Seq<(K, nat)> {
    match target {
        Some(k) => seq![(k, n)],
        None => Seq::empty(),
    }
}

/// What the first `n` rows of objects add to the counts.
pub open spec fn object_adds(c: StreamContext, n: int) -> Seq<(Seq<char>, nat)>
    decreases n,
{
    if n <= 0 {
        Seq::empty()
    } else {
        let base = c.tables.object_totals.keys()[n - 1];
        object_adds(c, n - 1) + add_if(
            object_target(c, base),
            c.tables.object_totals.map()[base] as nat,
        )
    }
}

/// What the first `n` rows of item schemas add to the counts.
pub open spec fn item_adds(c: StreamContext, n: int) -> Seq<(Seq<char>, nat)>
    decreases n,
{
    if n <= 0 {
        Seq::empty()
    } else {
        let k = c.tables.item_schema_counts.keys()[n - 1];
        item_adds(c, n - 1) + add_if(
            item_target(c, k),
            c.tables.item_schema_counts.map()[k].object_count as nat,
        )
    }
}

/// What the first `n` rows of object fields add to the counts.
pub open spec fn field_adds(c: StreamContext, n: int) -> Seq<((Seq<char>, Seq<char>), nat)>
    decreases n,
{
    if n <= 0 {
        Seq::empty()
    } else {
        let k = c.tables.object_field_facts.keys()[n - 1];
        field_adds(c, n - 1) + add_if(
            field_target(c, object_target(c, k.0), k.1),
            c.tables.object_field_facts.map()[k].count as nat,
        )
    }
}

/// What the first `n` rows of item fields add to the counts.
pub open spec fn item_field_adds(c: StreamContext, n: int) -> Seq<((Seq<char>, Seq<char>), nat)>
    decreases n,
{
    if n <= 0 {
        Seq::empty()
    } else {
        let k = c.tables.item_schema_field_counts.keys()[n - 1];
        item_field_adds(c, n - 1) + add_if(
            field_target(c, item_target(c, k.0), k.1),
            c.tables.item_schema_field_counts.map()[k] as nat,
        )
    }
}

/// The objects counted for each schema.
pub open spec fn streamed_objects(c: StreamContext) -> Map<Seq<char>, nat> {
    summed(
        object_adds(c, c.tables.object_totals.keys().len() as int) + item_adds(
            c,
            c.tables.item_schema_counts.keys().len() as int,
        ),
    )
}

/// The fields counted for each schema.
pub open spec fn streamed_field_adds(c: StreamContext) -> Seq<((Seq<char>, Seq<char>), nat)> {
    field_adds(c, c.tables.object_field_facts.keys().len() as int) + item_field_adds(
        c,
        c.tables.item_schema_field_counts.keys().len() as int,
    )
}

/// The label and the count of each field.
pub open spec fn typed(
    types: Map<(Seq<char>, Seq<char>), Seq<char>>,
    counts: Map<(Seq<char>, Seq<char>), nat>,
) -> Map<(Seq<char>, Seq<char>), (Seq<char>, nat)> {
    Map::new(
        |k: (Seq<char>, Seq<char>)| counts.contains_key(k),
        |k: (Seq<char>, Seq<char>)| (types[k], counts[k]),
    )
}

/// No number is larger than the largest `i64`.
spec fn small<K>(pairs: Seq<(K, nat)>) -> bool {
    forall|i: int| 0 <= i < pairs.len() ==> (#[trigger] pairs[i]).1 <= i64::MAX
}

proof fn lemma_sum_small<K>(pairs: Seq<(K, nat)>, k: K)
    requires
        small(pairs),
    ensures
        sum(order::under(pairs, k)) <= pairs.len() * i64::MAX,
    decreases pairs.len(),
{
    if pairs.len() > 0 {
        let d = pairs.drop_last();
        assert(small(d)) by {
            assert forall|i: int| 0 <= i < d.len() implies (#[trigger] d[i]).1 <= i64::MAX by {
                assert(pairs[i].1 <= i64::MAX);
            }
        }
        lemma_sum_small(d, k);
        assert(pairs[pairs.len() - 1].1 <= i64::MAX);
        assert(order::under(d, k).push(pairs.last().1).drop_last() =~= order::under(d, k));
        assert(pairs.len() * i64::MAX == d.len() * i64::MAX + i64::MAX) by (nonlinear_arith)
            requires
                pairs.len() == d.len() + 1,
        ;
    }
}

proof fn lemma_summed_push<K>(pairs: Seq<(K, nat)>, k: K, n: nat)
    ensures
        summed(pairs.push((k, n))) == summed(pairs).insert(k, sum(order::under(pairs, k)) + n),
{
    tables::lemma_firsts_push(pairs, (k, n));
    let u = order::under(pairs, k);
    assert(u.push(n).drop_last() =~= u);
    let more = pairs.push((k, n));
    assert(order::under(more, k) == u.push(n));
    assert forall|x: K| order::firsts(more).contains(x) <==> (order::firsts(pairs).contains(x) || x
        == k) by {
        order::lemma_under_nonempty(more, x);
        order::lemma_under_nonempty(pairs, x);
    }
    assert forall|x: K| x != k implies #[trigger] order::under(more, x) == order::under(
        pairs,
        x,
    ) by {}
    assert(summed(pairs.push((k, n))) =~= summed(pairs).insert(k, sum(u) + n));
}

/// Enough room for one more addition.
proof fn lemma_room<K>(pairs: Seq<(K, nat)>, k: K, n: nat)
    requires
        small(pairs),
        n <= i64::MAX,
        pairs.len() < 2 * usize::MAX,
    ensures
        sum(order::under(pairs, k)) + n <= u128::MAX,
{
    lemma_sum_small(pairs, k);
    assert(pairs.len() * i64::MAX + i64::MAX <= u128::MAX) by (nonlinear_arith)
        requires
            pairs.len() < 2 * usize::MAX,
            usize::MAX <= 0xffff_ffff_ffff_ffff,
    ;
}

fn add_count<K: Key>(m: &mut OrdMap<K, u128>, key: K, n: i64, Ghost(pairs): Ghost<
    Seq<(K::Model, nat)>,
>)
    requires
        old(m).wf(),
        n >= 0,
        small(pairs),
        pairs.len() < 2 * usize::MAX,
        statistics::counts_of(*old(m)) == summed(pairs),
    ensures
        final(m).wf(),
        small(pairs.push((key.model(), n as nat))),
        statistics::counts_of(*final(m)) == summed(pairs.push((key.model(), n as nat))),
{
    let ghost before = *m;
    let ghost k = key.model();
    let ghost so_far = sum(order::under(pairs, k));
    proof {
        lemma_summed_push(pairs, k, n as nat);
        lemma_room(pairs, k, n as nat);
        order::lemma_under_nonempty(pairs, k);
        assert(before.map().dom() =~= statistics::counts_of(before).dom());
        assert(before.map().contains_key(k) ==> before.map()[k] == statistics::counts_of(
            before,
        )[k]);
        assert(!before.map().contains_key(k) ==> order::under(pairs, k) =~= Seq::empty());
    }
    let total: u128 = match m.get(&key) {
        Some(old) => *old + n as u128,
        None => n as u128,
    };
    m.insert(key, total);
    assert(statistics::counts_of(*m) =~= statistics::counts_of(before).insert(k, total as nat));
}

fn add_field(
    m: &mut OrdMap<(String, String), (String, u128)>,
    key: (String, String),
    label: String,
    n: i64,
    Ghost(pairs): Ghost<Seq<((Seq<char>, Seq<char>), nat)>>,
    Ghost(types): Ghost<Map<(Seq<char>, Seq<char>), Seq<char>>>,
)
    requires
        old(m).wf(),
        n >= 0,
        small(pairs),
        pairs.len() < 2 * usize::MAX,
        types[(key.0@, key.1@)] == label@,
        statistics::field_counts_of(*old(m)) == typed(types, summed(pairs)),
    ensures
        final(m).wf(),
        small(pairs.push(((key.0@, key.1@), n as nat))),
        statistics::field_counts_of(*final(m)) == typed(
            types,
            summed(pairs.push(((key.0@, key.1@), n as nat))),
        ),
{
    let ghost before = *m;
    let ghost k = (key.0@, key.1@);
    proof {
        assert(key.model() == k);
        lemma_summed_push(pairs, k, n as nat);
        lemma_room(pairs, k, n as nat);
        order::lemma_under_nonempty(pairs, k);
        assert(before.map().dom() =~= statistics::field_counts_of(before).dom());
        assert(before.map().contains_key(k) ==> before.map()[k].1 == statistics::field_counts_of(
            before,
        )[k].1);
        assert(!before.map().contains_key(k) ==> order::under(pairs, k) =~= Seq::empty());
    }
    let total: u128 = match m.get(&key) {
        Some(old) => old.1 + n as u128,
        None => n as u128,
    };
    m.insert(key, (label, total));
    proof {
        assert(statistics::field_counts_of(*m) =~= statistics::field_counts_of(before).insert(
            k,
            (label@, total as nat),
        ));
        assert(statistics::field_counts_of(*m) =~= typed(types, summed(pairs.push((k, n as nat)))));
    }
}

/// The labels of the fields of all records.
pub fn field_types_of(records: &Vec<Record>) -> (r: OrdMap<(String, String), String>)
    ensures
        r.wf(),
        index::texts_of(r) == index::last_wins(type_pairs(records::records_model(records@))),
{
    let ghost recs = records::records_model(records@);
    let mut m: OrdMap<(String, String), String> = OrdMap::new();
    let mut i: usize = 0;
    proof {
        assert(recs.take(0) =~= Seq::empty());
        assert(index::texts_of(m) =~= Map::empty());
    }
    while i < records.len()
        invariant
            recs == records::records_model(records@),
            i <= records@.len(),
            m.wf(),
            index::texts_of(m) == index::last_wins(type_pairs(recs.take(i as int))),
        decreases records@.len() - i,
    {
        let record = &records[i];
        let ghost so_far = type_pairs(recs.take(i as int));
        let ghost more = types_of(recs[i as int]);
        proof {
            assert(recs.take(i + 1).drop_last() =~= recs.take(i as int));
            assert(recs.take(i + 1).last() == records::record_model(*record));
            assert(so_far + more.take(0) =~= so_far);
        }
        let mut j: usize = 0;
        while j < record.schema.len()
            invariant
                more == types_of(records::record_model(*record)),
                j <= record.schema@.len(),
                m.wf(),
                index::texts_of(m) == index::last_wins(so_far + more.take(j as int)),
            decreases record.schema@.len() - j,
        {
            proof {
                index::lemma_last_wins_push(so_far, more, j as int);
            }
            index::put_text(
                &mut m,
                (record.schema_path.clone(), record.schema[j].0.clone()),
                record.schema[j].1.clone(),
            );
            j = j + 1;
        }
        assert(more.take(more.len() as int) =~= more);
        i = i + 1;
    }
    assert(recs.take(recs.len() as int) =~= recs);
    m
}

/// What rows are counted for.
struct Targets<'a> {
    definitions: &'a OrdMap<String, Vec<(String, String)>>,
    schema_paths: &'a OrdMap<String, String>,
    field_types: &'a OrdMap<(String, String), String>,
    item_paths: &'a Vec<Option<String>>,
    tables: &'a Tables<String, String>,
}

impl<'a> Targets<'a> {
    spec fn holds(self, c: StreamContext) -> bool {
        &&& self.definitions.wf()
        &&& self.schema_paths.wf()
        &&& self.field_types.wf()
        &&& self.tables.wf()
        &&& *self.tables == c.tables
        &&& index::schemas_of(*self.definitions) == c.definitions
        &&& index::texts_of(*self.schema_paths) == c.paths
        &&& index::texts_of(*self.field_types) == c.types
        &&& self.item_paths@.len() == c.tables.item_schema_counts.entries@.len()
        &&& forall|j: int|
            0 <= j < self.item_paths@.len() ==> records::text_option(
                #[trigger] self.item_paths@[j],
            ) == item_path(c.tables, c.tables.item_schema_counts.keys()[j])
    }

    fn counts(&self, p: &String, Ghost(c): Ghost<StreamContext>) -> (r: bool)
        requires
            self.holds(c),
        ensures
            r == counts_schema(c.definitions, p@),
    {
        match self.definitions.get(p) {
            Some(schema) => {
                assert(index::schemas_of(*self.definitions)[p@] == json::schema_model(schema@));
                !is_refs_mut_schema(schema)
            },
            None => {
                assert(!index::schemas_of(*self.definitions).contains_key(p@));
                false
            },
        }
    }

    fn object_target(&self, base: &String, Ghost(c): Ghost<StreamContext>) -> (r: Option<String>)
        requires
            self.holds(c),
        ensures
            records::text_option(r) == object_target(c, base@),
    {
        let file = json_path(base.as_str());
        match self.schema_paths.get(&file) {
            Some(p) => {
                assert(index::texts_of(*self.schema_paths)[file@] == p@);
                if self.counts(p, Ghost(c)) {
                    Some(p.clone())
                } else {
                    None
                }
            },
            None => {
                assert(!index::texts_of(*self.schema_paths).contains_key(file@));
                None
            },
        }
    }

    fn item_target(&self, key: &((Role, String), String), Ghost(c): Ghost<StreamContext>) -> (r:
        Option<String>)
        requires
            self.holds(c),
        ensures
            records::text_option(r) == item_target(c, key.model()),
    {
        let (at, found) = self.tables.item_schema_counts.locate(key);
        if !found {
            return None;
        }
        assert(self.tables.item_schema_counts.keys()[at as int] == key.model());
        assert(records::text_option(self.item_paths@[at as int]) == item_path(
            c.tables,
            key.model(),
        ));
        match &self.item_paths[at] {
            Some(p) => if self.counts(p, Ghost(c)) {
                Some(p.clone())
            } else {
                None
            },
            None => None,
        }
    }

    fn label(&self, key: &(String, String), Ghost(c): Ghost<StreamContext>) -> (r: Option<String>)
        requires
            self.holds(c),
        ensures
            r is Some <==> c.types.contains_key((key.0@, key.1@)),
            r matches Some(label) ==> label@ == c.types[(key.0@, key.1@)],
    {
        assert(key.model() == (key.0@, key.1@));
        match self.field_types.get(key) {
            Some(label) => {
                assert(index::texts_of(*self.field_types)[(key.0@, key.1@)] == label@);
                Some(label.clone())
            },
            None => {
                assert(!index::texts_of(*self.field_types).contains_key((key.0@, key.1@)));
                None
            },
        }
    }
}

/// Adds a field's count to the schema that counts it.
fn add_field_if(
    m: &mut OrdMap<(String, String), (String, u128)>,
    targets: &Targets<'_>,
    target: Option<String>,
    name: &String,
    n: i64,
    Ghost(pairs): Ghost<Seq<((Seq<char>, Seq<char>), nat)>>,
    Ghost(c): Ghost<StreamContext>,
)
    requires
        targets.holds(c),
        old(m).wf(),
        n >= 0,
        small(pairs),
        pairs.len() < 2 * usize::MAX,
        statistics::field_counts_of(*old(m)) == typed(c.types, summed(pairs)),
    ensures
        final(m).wf(),
        ({
            let more = pairs + add_if(
                field_target(c, records::text_option(target), name@),
                n as nat,
            );
            small(more) && more.len() <= pairs.len() + 1 && statistics::field_counts_of(*final(m))
                == typed(c.types, summed(more))
        }),
{
    let ghost t = field_target(c, records::text_option(target), name@);
    if let Some(p) = target {
        let key = (p, name.clone());
        if let Some(label) = targets.label(&key, Ghost(c)) {
            add_field(m, key, label, n, Ghost(pairs), Ghost(c.types));
            assert(pairs + add_if(t, n as nat) =~= pairs.push(((p@, name@), n as nat)));
            return;
        }
    }
    assert(pairs + add_if(t, n as nat) =~= pairs);
}

fn add_count_if(
    m: &mut OrdMap<String, u128>,
    target: Option<String>,
    n: i64,
    Ghost(pairs): Ghost<Seq<(Seq<char>, nat)>>,
)
    requires
        old(m).wf(),
        n >= 0,
        small(pairs),
        pairs.len() < 2 * usize::MAX,
        statistics::counts_of(*old(m)) == summed(pairs),
    ensures
        final(m).wf(),
        ({
            let more = pairs + add_if(records::text_option(target), n as nat);
            small(more) && more.len() <= pairs.len() + 1 && statistics::counts_of(*final(m))
                == summed(more)
        }),
{
    match target {
        Some(p) => {
            let ghost k = p@;
            add_count(m, p, n, Ghost(pairs));
            assert(pairs + seq![(k, n as nat)] =~= pairs.push((k, n as nat)));
        },
        None => {
            assert(pairs + Seq::<(Seq<char>, nat)>::empty() =~= pairs);
        },
    }
}

/// Counts streamed objects, and their fields, by the schemas that describe them.
pub fn write_streamed_occurrence_statistics(t: &Tables<String, String>, records: &Vec<Record>) -> (r:
    Statistics)
    requires
        t.wf(),
    ensures
        ({
            let c = stream_context(*t, records::records_model(records@));
            r.object_counts.wf() && r.field_counts.wf() && statistics::counts_of(r.object_counts)
                == streamed_objects(c) && statistics::field_counts_of(r.field_counts) == typed(
                c.types,
                summed(streamed_field_adds(c)),
            )
        }),
{
    let ghost c = stream_context(*t, records::records_model(records@));
    let definitions = index::definitions_of(records);
    let schema_paths = index::schema_paths_of(records);
    let field_types = field_types_of(records);
    let found = item_paths(t);
    let targets = Targets {
        definitions: &definitions,
        schema_paths: &schema_paths,
        field_types: &field_types,
        item_paths: &found,
        tables: t,
    };
    let mut object_counts: OrdMap<String, u128> = OrdMap::new();
    let mut field_counts: OrdMap<(String, String), (String, u128)> = OrdMap::new();
    proof {
        assert(statistics::counts_of(object_counts) =~= summed(object_adds(c, 0)));
        assert(statistics::field_counts_of(field_counts) =~= typed(
            c.types,
            summed(field_adds(c, 0)),
        ));
    }
    let totals = &t.object_totals.entries;
    let mut i: usize = 0;
    while i < totals.len()
        invariant
            targets.holds(c),
            *t == c.tables,
            t.wf(),
            *totals == t.object_totals.entries,
            i <= totals@.len(),
            object_counts.wf(),
            object_adds(c, i as int).len() <= i,
            small(object_adds(c, i as int)),
            statistics::counts_of(object_counts) == summed(object_adds(c, i as int)),
        decreases totals@.len() - i,
    {
        proof {
            t.object_totals.lemma_entry(i as int);
            assert(t.object_totals.keys()[i as int] == totals@[i as int].0@);
        }
        let target = targets.object_target(&totals[i].0, Ghost(c));
        add_count_if(&mut object_counts, target, totals[i].1, Ghost(object_adds(c, i as int)));
        i = i + 1;
    }
    let ghost objects = object_adds(c, totals@.len() as int);
    let items = &t.item_schema_counts.entries;
    let mut i: usize = 0;
    assert(objects + item_adds(c, 0) =~= objects);
    while i < items.len()
        invariant
            targets.holds(c),
            *t == c.tables,
            t.wf(),
            *items == t.item_schema_counts.entries,
            i <= items@.len(),
            object_counts.wf(),
            objects.len() <= usize::MAX,
            (objects + item_adds(c, i as int)).len() <= objects.len() + i,
            small(objects + item_adds(c, i as int)),
            statistics::counts_of(object_counts) == summed(objects + item_adds(c, i as int)),
        decreases items@.len() - i,
    {
        let ghost so_far = objects + item_adds(c, i as int);
        proof {
            t.item_schema_counts.lemma_entry(i as int);
            assert(t.item_schema_counts.keys()[i as int] == items@[i as int].0.model());
        }
        let target = targets.item_target(&items[i].0, Ghost(c));
        let ghost given = records::text_option(target);
        add_count_if(&mut object_counts, target, items[i].1.object_count, Ghost(so_far));
        assert(so_far + add_if(given, items@[i as int].1.object_count as nat) =~= objects
            + item_adds(c, i + 1));
        i = i + 1;
    }
    let facts = &t.object_field_facts.entries;
    let mut i: usize = 0;
    while i < facts.len()
        invariant
            targets.holds(c),
            *t == c.tables,
            t.wf(),
            *facts == t.object_field_facts.entries,
            i <= facts@.len(),
            field_counts.wf(),
            field_adds(c, i as int).len() <= i,
            small(field_adds(c, i as int)),
            statistics::field_counts_of(field_counts) == typed(
                c.types,
                summed(field_adds(c, i as int)),
            ),
        decreases facts@.len() - i,
    {
        proof {
            t.object_field_facts.lemma_entry(i as int);
            assert(t.object_field_facts.keys()[i as int] == facts@[i as int].0.model());
        }
        let target = targets.object_target(&facts[i].0.0, Ghost(c));
        add_field_if(
            &mut field_counts,
            &targets,
            target,
            &facts[i].0.1,
            facts[i].1.count,
            Ghost(field_adds(c, i as int)),
            Ghost(c),
        );
        i = i + 1;
    }
    let ghost fields = field_adds(c, facts@.len() as int);
    let rows = &t.item_schema_field_counts.entries;
    let mut i: usize = 0;
    assert(fields + item_field_adds(c, 0) =~= fields);
    while i < rows.len()
        invariant
            targets.holds(c),
            *t == c.tables,
            t.wf(),
            *rows == t.item_schema_field_counts.entries,
            i <= rows@.len(),
            field_counts.wf(),
            fields.len() <= usize::MAX,
            (fields + item_field_adds(c, i as int)).len() <= fields.len() + i,
            small(fields + item_field_adds(c, i as int)),
            statistics::field_counts_of(field_counts) == typed(
                c.types,
                summed(fields + item_field_adds(c, i as int)),
            ),
        decreases rows@.len() - i,
    {
        let ghost so_far = fields + item_field_adds(c, i as int);
        proof {
            t.item_schema_field_counts.lemma_entry(i as int);
            assert(t.item_schema_field_counts.keys()[i as int] == rows@[i as int].0.model());
        }
        let target = targets.item_target(&rows[i].0.0, Ghost(c));
        let ghost given = field_target(c, records::text_option(target), rows@[i as int].0.1@);
        add_field_if(
            &mut field_counts,
            &targets,
            target,
            &rows[i].0.1,
            rows[i].1,
            Ghost(so_far),
            Ghost(c),
        );
        assert(so_far + add_if(given, rows@[i as int].1 as nat) =~= fields + item_field_adds(
            c,
            i + 1,
        ));
        i = i + 1;
    }
    Statistics { object_counts, field_counts }
}

} // verus!
