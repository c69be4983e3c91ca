//! The schemas that the tables of a walk give are those of the objects of the walk.

use crate::facts;
use crate::index;
use crate::json;
use crate::json::Json;
use crate::kinds;
use crate::label;
use crate::order;
use crate::path;
use crate::recorder;
use crate::records;
use crate::streamed;
use crate::tables;
use crate::tables::Tables;
use crate::walk::{Occ, Role};
use vstd::prelude::*;

verus! {

/// Tables that hold what is recorded of a walk.
pub open spec fn tables_of(t: Tables<String, String>, occs: Seq<Occ<Seq<char>>>) -> bool {
    t.holds(recorder::log_of(occs)) && facts::all_tidy(occs) && tables::facts_fit(
        recorder::log_of(occs),
    )
}

/// The rows of members give the profile of the arrays at a path.
proof fn lemma_level_rows(
    t: Tables<String, String>,
    occs: Seq<Occ<Seq<char>>>,
    base: Seq<char>,
    name: Seq<char>,
    depth: nat,
)
    requires
        tables_of(t, occs),
    ensures
        streamed::level_rows(t.array_member_facts.map(), path::child(base, name), depth)
            == label::profile(
            facts::level(
                label::members(label::values_of(facts::objects_at(occs, base), name)),
                depth,
            ),
        ),
    decreases
            label::items_nodes(
                facts::level(
                    label::members(label::values_of(facts::objects_at(occs, base), name)),
                    depth,
                ),
            ),
{
    let rows = t.array_member_facts.map();
    let log = recorder::log_of(occs);
    let values = label::members(label::values_of(facts::objects_at(occs, base), name));
    let here = facts::level(values, depth);
    let k = (path::child(base, name), depth);
    facts::lemma_log_members(occs, base, name, depth);
    order::lemma_under_nonempty(log.members, k);
    if here.len() > 0 {
        let i = choose|i: int| 0 <= i < log.members.len() && order::firsts(log.members)[i] == k;
        assert(log.members[i].0 == k);
        assert(depth < u64::MAX);
        assert(rows.contains_key(k));
        kinds::lemma_tally(here);
        facts::lemma_level_next(values, depth);
        label::lemma_members_nodes(here);
        lemma_level_rows(t, occs, base, name, depth + 1);
        assert(rows[k].count != 0);
    } else {
        assert(!rows.contains_key(k));
    }
}

/// The object that has a field is among the objects.
proof fn lemma_values_of_nonempty(objects: Seq<Seq<(Seq<char>, Json)>>, name: Seq<char>)
    ensures
        label::values_of(objects, name).len() > 0 <==> label::all_names(objects).contains(name),
    decreases objects.len(),
{
    if objects.len() > 0 {
        let d = objects.drop_last();
        lemma_values_of_nonempty(d, name);
        json::lemma_lookup_some(objects.last(), name);
        let a = label::all_names(d);
        let b = json::names(objects.last());
        if a.contains(name) {
            let i = choose|i: int| 0 <= i < a.len() && a[i] == name;
            assert((a + b)[i] == name);
        }
        if b.contains(name) {
            let i = choose|i: int| 0 <= i < b.len() && b[i] == name;
            assert((a + b)[a.len() + i] == name);
        }
        if (a + b).contains(name) {
            let i = choose|i: int| 0 <= i < (a + b).len() && (a + b)[i] == name;
            if i < a.len() {
                assert(a[i] == name);
            } else {
                assert(b[i - a.len()] == name);
            }
        }
    }
}

/// The schema of streamed objects at a path is the schema of those objects.
pub proof fn lemma_streamed_schema(
    t: Tables<String, String>,
    occs: Seq<Occ<Seq<char>>>,
    base: Seq<char>,
)
    requires
        tables_of(t, occs),
    ensures
        streamed::streamed_schema(t, base, facts::objects_at(occs, base).len() as int)
            == label::schema_of(base + "/"@, facts::objects_at(occs, base)),
{
    let log = recorder::log_of(occs);
    let objects = facts::objects_at(occs, base);
    let keys = t.object_field_facts.keys();
    let found = order::under(keys, base);
    let names = order::sorted_set(label::all_names(objects));
    order::lemma_under_ascending(keys, base);
    order::lemma_sorted_set(label::all_names(objects));
    assert forall|name: Seq<char>| found.contains(name) <==> names.contains(name) by {
        assert(t.object_field_facts.map().contains_key((base, name)) <==> keys.contains(
            (base, name),
        ));
        facts::lemma_log_fields(occs, base, name);
        order::lemma_under_nonempty(log.fields, (base, name));
        lemma_values_of_nonempty(objects, name);
    }
    order::lemma_ascending_unique(found, names);
    let l = streamed::streamed_schema(t, base, objects.len() as int);
    let r = label::schema_of(base + "/"@, objects);
    assert forall|i: int| 0 <= i < names.len() implies l[i] == r[i] by {
        let name = names[i];
        assert(names.contains(name));
        assert(found.contains(name));
        assert(keys.contains((base, name)));
        assert(t.object_field_facts.map().contains_key((base, name)));
        facts::lemma_log_fields(occs, base, name);
        let values = label::values_of(objects, name);
        kinds::lemma_tally(values);
        lemma_level_rows(t, occs, base, name, 0);
        assert(path::child(base, name) =~= base + "/"@ + path::segment(name));
    }
    assert(l =~= r);
}

/// The totals count the objects at each path.
pub proof fn lemma_totals(
    t: Tables<String, String>,
    occs: Seq<Occ<Seq<char>>>,
    base: Seq<char>,
)
    requires
        tables_of(t, occs),
    ensures
        t.object_totals.map().contains_key(base) <==> facts::objects_at(occs, base).len() > 0,
        t.object_totals.map().contains_key(base) ==> t.object_totals.map()[base]
            == facts::objects_at(occs, base).len(),
{
    let log = recorder::log_of(occs);
    facts::lemma_log_objects(occs, base);
    order::lemma_under_nonempty(log.objects, base);
}

/// The stored schemas of items are their distinct schemas.
pub proof fn lemma_stored_schemas(
    t: Tables<String, String>,
    occs: Seq<Occ<Seq<char>>>,
    role: Role,
    base: Seq<char>,
)
    requires
        tables_of(t, occs),
        role != Role::Object,
    ensures
        streamed::stored_schemas(t, (tables::role_rank(role), base)) == records::distinct_rows(
            records::item_rows(base + "/"@, facts::items_at(occs, role, base)),
        ),
{
    let log = recorder::log_of(occs);
    let place = (tables::role_rank(role), base);
    let rows = records::item_rows(base + "/"@, facts::items_at(occs, role, base));
    let keys = t.item_schema_counts.keys();
    let found = order::under(keys, place);
    let canons = order::sorted_set(order::firsts(rows));
    order::lemma_under_ascending(keys, place);
    order::lemma_sorted_set(order::firsts(rows));
    assert forall|c: Seq<char>| found.contains(c) <==> canons.contains(c) by {
        assert(t.item_schema_counts.map().contains_key((place, c)) <==> keys.contains((place, c)));
        facts::lemma_log_items(occs, role, base, c);
        order::lemma_under_nonempty(log.items, (place, c));
        order::lemma_under_nonempty(rows, c);
    }
    order::lemma_ascending_unique(found, canons);
    let l = streamed::stored_schemas(t, place);
    let r = records::distinct_rows(rows);
    assert forall|i: int| 0 <= i < canons.len() implies l[i] == r[i] by {
        let c = canons[i];
        assert(canons.contains(c));
        assert(found.contains(c));
        assert(keys.contains((place, c)));
        assert(t.item_schema_counts.map().contains_key((place, c)));
        facts::lemma_log_items(occs, role, base, c);
    }
    assert(l =~= r);
}

/// No position occurs twice.
pub open spec fn distinct_positions(items: Seq<(Seq<nat>, Seq<(Seq<char>, Json)>)>) -> bool {
    forall|i: int, j: int|
        0 <= i < j < items.len() ==> (#[trigger] items[i]).0 != (#[trigger] items[j]).0
}

proof fn lemma_marks_unique(
    prefix: Seq<char>,
    items: Seq<(Seq<nat>, Seq<(Seq<char>, Json)>)>,
    i: int,
)
    requires
        distinct_positions(items),
        0 <= i < items.len(),
    ensures
        order::under(facts::item_marks(prefix, items), items[i].0) == seq![
            records::item_rows(prefix, items)[i].0,
        ],
{
    let marks = facts::item_marks(prefix, items);
    assert forall|j: int| 0 <= j < marks.len() implies (i <= j < i + 1 <==> (#[trigger] marks[j]).0
        == items[i].0) by {
        if j < i {
            assert(items[j].0 != items[i].0);
        } else if i < j {
            assert(items[i].0 != items[j].0);
        }
    }
    order::lemma_under_range(marks, items[i].0, i, i + 1);
    assert(order::under(marks, items[i].0) =~= seq![records::item_rows(prefix, items)[i].0]);
}

/// The stored positions of items are their positions.
pub proof fn lemma_stored_refs(
    t: Tables<String, String>,
    occs: Seq<Occ<Seq<char>>>,
    role: Role,
    base: Seq<char>,
    x: (Seq<char>, Seq<nat>),
)
    requires
        tables_of(t, occs),
        role != Role::Object,
        distinct_positions(facts::items_at(occs, role, base)),
    ensures
        streamed::stored_refs(t, (tables::role_rank(role), base)).contains(x)
            <==> records::item_refs(base + "/"@, facts::items_at(occs, role, base)).contains(x),
{
    let log = recorder::log_of(occs);
    let place = (tables::role_rank(role), base);
    let items = facts::items_at(occs, role, base);
    let prefix = base + "/"@;
    let marks = facts::item_marks(prefix, items);
    let keys = t.item_schema_index_refs.keys();
    let map = t.item_schema_index_refs.map();
    let found = order::under(keys, place);
    let stored = streamed::stored_refs(t, place);
    let refs = records::item_refs(prefix, items);
    let index = x.1;
    let k = (place, index);
    order::lemma_under_ascending(keys, place);
    assert(map.contains_key(k) <==> keys.contains(k));
    assert(index::texts_of(t.item_schema_index_refs).contains_key(k) <==> map.contains_key(k));
    crate::stream::lemma_last_wins_under(log.refs, k);
    facts::lemma_log_refs(occs, role, base, index);
    order::lemma_under_nonempty(marks, index);
    if stored.contains(x) {
        let i = choose|i: int| 0 <= i < stored.len() && stored[i] == x;
        assert(found[i] == index);
        assert(found.contains(index));
        assert(order::firsts(marks).contains(index));
        let j = choose|j: int| 0 <= j < marks.len() && order::firsts(marks)[j] == index;
        assert(items[j].0 == index);
        lemma_marks_unique(prefix, items, j);
        assert(index::texts_of(t.item_schema_index_refs)[k] == map[k]@);
        assert(refs[j] == x);
    }
    if refs.contains(x) {
        let j = choose|j: int| 0 <= j < refs.len() && refs[j] == x;
        assert(items[j].0 == index);
        lemma_marks_unique(prefix, items, j);
        assert(found.contains(index));
        let i = choose|i: int| 0 <= i < found.len() && found[i] == index;
        assert(index::texts_of(t.item_schema_index_refs)[k] == map[k]@);
        assert(stored[i] == x);
    }
}

} // verus!
