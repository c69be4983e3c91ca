//! Streamed objects are counted as objects read at once are.

use crate::catalog;
use crate::facts;
use crate::index;
use crate::json;
use crate::json::Json;
use crate::label;
use crate::order;
use crate::overrides;
use crate::path;
use crate::places;
use crate::quoted;
use crate::recorder;
use crate::records;
use crate::records::Rec;
use crate::same_index;
use crate::same_records;
use crate::statistics;
use crate::statistics::{Fault, Lookups};
use crate::streamed;
use crate::streamed::StreamContext;
use crate::streamed_schemas;
use crate::tables;
use crate::tables::Tables;
use crate::walk;
use crate::walk::{Occ, Role};
use vstd::prelude::*;

verus! {

/// A record of equal schemas describes candidates with its canonical text.
pub proof fn lemma_merged_shape(
    candidates: Seq<(Seq<char>, Seq<(Seq<char>, Seq<char>)>)>,
    r: Rec,
)
    requires
        records::schemas_sorted(candidates),
        records::merged(candidates).contains(r),
    ensures
        r.array_parent is None,
        r.object_paths.contains(r.schema_path),
        order::ascending(json::schema_names(r.schema)),
{
    let all = records::merged(candidates);
    let pairs = records::canonical_pairs(candidates);
    let canons = order::sorted_set(order::firsts(pairs));
    let i = choose|i: int| 0 <= i < all.len() && all[i] == r;
    let same = order::under(pairs, canons[i]);
    order::lemma_sorted_set(order::firsts(pairs));
    assert(canons.contains(canons[i]));
    order::lemma_under_nonempty(pairs, canons[i]);
    order::lemma_ranked(order::firsts(same));
    let ranks = order::ranked(order::firsts(same));
    assert(r.object_paths[0] == r.schema_path);
    let x = same[ranks[0].1 as int];
    assert(same.contains(x));
    same_records::lemma_under_contains(pairs, canons[i], x);
    let j = choose|j: int| 0 <= j < pairs.len() && pairs[j] == (canons[i], x);
    assert(candidates[j] == x);
}

/// Every candidate has a record with its canonical text.
pub proof fn lemma_merged_finds(
    candidates: Seq<(Seq<char>, Seq<(Seq<char>, Seq<char>)>)>,
    c: (Seq<char>, Seq<(Seq<char>, Seq<char>)>),
) -> (r: Rec)
    requires
        candidates.contains(c),
    ensures
        records::merged(candidates).contains(r),
        r.object_paths.contains(c.0),
        json::compact_json(r.schema) == json::compact_json(c.1),
{
    let all = records::merged(candidates);
    let pairs = records::canonical_pairs(candidates);
    let canons = order::sorted_set(order::firsts(pairs));
    let canon = json::compact_json(c.1);
    let m = choose|m: int| 0 <= m < candidates.len() && candidates[m] == c;
    assert(pairs[m] == (canon, c));
    assert(order::firsts(pairs)[m] == canon);
    assert(order::firsts(pairs).contains(canon));
    order::lemma_sorted_set(order::firsts(pairs));
    assert(canons.contains(canon));
    let i = choose|i: int| 0 <= i < canons.len() && canons[i] == canon;
    let same = order::under(pairs, canon);
    same_records::lemma_under_contains(pairs, canon, c);
    let j = choose|j: int| 0 <= j < same.len() && same[j] == c;
    let paths = order::firsts(same);
    let listed = Seq::new(paths.len(), |n: int| (paths[n], n as nat));
    let ranks = order::ranked(paths);
    order::lemma_sorted_set(listed);
    order::lemma_ranked(paths);
    assert(listed[j] == (c.0, j as nat));
    assert(listed.contains((c.0, j as nat)));
    assert(ranks.contains((c.0, j as nat)));
    let n = choose|n: int| 0 <= n < ranks.len() && ranks[n] == (c.0, j as nat);
    let r = all[i];
    assert(r.object_paths[n] == c.0);
    let x = same[ranks[0].1 as int];
    assert(same.contains(x));
    same_records::lemma_under_contains(pairs, canon, x);
    let k = choose|k: int| 0 <= k < pairs.len() && pairs[k] == (canon, x);
    assert(candidates[k] == x);
    assert(all.contains(r));
    r
}

/// The record of the items of one role and path with one canonical text.
pub open spec fn item_entry(t: Tables<String, String>, place: (nat, Seq<char>), canon: Seq<char>) -> Rec {
    records::item_record(
        streamed::item_path(t, (place, canon))->0,
        path::json_file(place.1),
        order::under(streamed::stored_schemas(t, place), canon)[0],
        records::positions(streamed::stored_refs(t, place), canon),
    )
}

/// Some item has the schema.
pub open spec fn has_items(t: Tables<String, String>, place: (nat, Seq<char>), canon: Seq<char>) -> bool {
    order::firsts(streamed::stored_schemas(t, place)).contains(canon) && records::positions(
        streamed::stored_refs(t, place),
        canon,
    ).len() > 0
}

/// The records of items: one for each schema that an item has, and perhaps a container.
pub proof fn lemma_base_records(
    t: Tables<String, String>,
    rank: nat,
    base: Seq<char>,
    container: bool,
    r: Rec,
)
    requires
        t.wf(),
        rank != tables::role_rank(Role::Object),
        forall|c: Seq<char>| #[trigger]
            order::firsts(streamed::stored_schemas(t, (rank, base))).contains(c)
                ==> records::positions(streamed::stored_refs(t, (rank, base)), c).len() > 0,
    ensures
        same_records::base_records(t, rank, base, container).contains(r) ==> r
            == records::container_record(base) || exists|c: Seq<char>| #[trigger]
            has_items(t, (rank, base), c) && r == item_entry(t, (rank, base), c),
        (exists|c: Seq<char>| #[trigger]
            has_items(t, (rank, base), c) && r == item_entry(t, (rank, base), c))
            ==> same_records::base_records(t, rank, base, container).contains(r),
{
    let place = (rank, base);
    let schemas = streamed::stored_schemas(t, place);
    let refs = streamed::stored_refs(t, place);
    let whole = same_records::base_records(t, rank, base, container);
    let more = records::variants(base, schemas, refs);
    let keys = order::sorted_set(records::variant_keys(schemas, refs));
    order::lemma_sorted_set(records::variant_keys(schemas, refs));
    order::lemma_under_ascending(t.item_schema_counts.keys(), place);
    assert(order::firsts(schemas) =~= order::under(t.item_schema_counts.keys(), place));
    let head: Seq<Rec> = if container {
        seq![records::container_record(base)]
    } else {
        Seq::empty()
    };
    if whole.contains(r) {
        let i = choose|i: int| 0 <= i < whole.len() && whole[i] == r;
        if schemas.len() == 1 {
            let c = schemas[0].0;
            order::lemma_under_unique(schemas, 0);
            assert(order::firsts(schemas)[0] == c);
            assert(order::firsts(schemas).contains(c));
            assert(has_items(t, place, c));
            assert(r == item_entry(t, place, c));
        } else if i < head.len() {
            assert(r == records::container_record(base));
        } else {
            let j = i - head.len();
            assert(r == more[j]);
            let c = keys[j].1;
            assert(keys.contains(keys[j]));
            records::lemma_variant_keys(schemas, refs, keys[j]);
            let m = choose|m: int| 0 <= m < schemas.len() && (#[trigger] schemas[m]).0 == c;
            assert(order::firsts(schemas)[m] == c);
            assert(order::firsts(schemas).contains(c));
            assert(has_items(t, place, c));
            assert(r == item_entry(t, place, c));
        }
    }
    if exists|c: Seq<char>| #[trigger] has_items(t, place, c) && r == item_entry(t, place, c) {
        let c = choose|c: Seq<char>| #[trigger]
            has_items(t, place, c) && r == item_entry(t, place, c);
        let m = choose|m: int| 0 <= m < schemas.len() && order::firsts(schemas)[m] == c;
        assert(schemas[m].0 == c);
        if schemas.len() == 1 {
            order::lemma_under_unique(schemas, 0);
            assert(whole[0] == r);
        } else {
            let k = (records::positions(refs, c)[0], c);
            records::lemma_variant_keys(schemas, refs, k);
            assert(keys.contains(k));
            let j = choose|j: int| 0 <= j < keys.len() && keys[j] == k;
            assert(more[j] == r);
            assert(whole[head.len() + j] == r);
        }
    }
}

/// What is assumed of a walk and of the tables of what was recorded of it.
pub open spec fn comparable(
    t: Tables<String, String>,
    outdir: Seq<char>,
    occs: Seq<Occ<Seq<Seq<char>>>>,
) -> bool {
    &&& same_records::streams(t, outdir, occs)
    &&& forall|i: int|
        0 <= i < occs.len() ==> ((#[trigger] occs[i]).role == Role::RootCollection
            <==> occs[i].at.len() == 1)
}

/// Every occurrence can be counted.
pub open spec fn countable(outdir: Seq<char>, occs: Seq<Occ<Seq<Seq<char>>>>) -> bool {
    statistics::statistics_fault(outdir, catalog::lookups_of(records::built(outdir, occs)), occs)
        is None
}

/// The canonical text of an item.
pub open spec fn canon_of(o: Occ<Seq<char>>) -> Seq<char> {
    json::compact_json(recorder::item_schema(o.at, o.fields))
}

/// Items stand among the items at their path.
pub proof fn lemma_item_among(occs: Seq<Occ<Seq<char>>>, i: int)
    requires
        0 <= i < occs.len(),
    ensures
        facts::items_at(occs, occs[i].role, occs[i].at).contains(
            (occs[i].indexes, occs[i].fields),
        ),
        occs[i].role == Role::Object ==> facts::objects_at(occs, occs[i].at).contains(
            occs[i].fields,
        ),
{
    let o = occs[i];
    walk::lemma_of_role_all(occs, o.role);
    let kept = walk::of_role(occs, o.role);
    assert(kept.contains(o));
    let j = choose|j: int| 0 <= j < kept.len() && kept[j] == o;
    let pairs = records::place_items(kept);
    assert(pairs[j] == (o.at, (o.indexes, o.fields)));
    assert(pairs.contains((o.at, (o.indexes, o.fields))));
    same_records::lemma_under_contains(pairs, o.at, (o.indexes, o.fields));
    let others = records::place_pairs(kept);
    assert(others[j] == (o.at, o.fields));
    assert(others.contains((o.at, o.fields)));
    same_records::lemma_under_contains(others, o.at, o.fields);
}

/// Where there are items, an occurrence is one of them.
pub proof fn lemma_items_from(occs: Seq<Occ<Seq<char>>>, role: Role, base: Seq<char>) -> (i: int)
    requires
        facts::items_at(occs, role, base).len() > 0,
    ensures
        0 <= i < occs.len(),
        occs[i].role == role,
        occs[i].at == base,
{
    let kept = walk::of_role(occs, role);
    let pairs = records::place_items(kept);
    let x = facts::items_at(occs, role, base)[0];
    assert(order::under(pairs, base).contains(x));
    same_records::lemma_under_contains(pairs, base, x);
    let j = choose|j: int| 0 <= j < pairs.len() && pairs[j] == (base, x);
    walk::lemma_of_role_all(occs, role);
    assert(kept[j].role == role);
    let i = choose|i: int| 0 <= i < occs.len() && occs[i] == kept[j];
    i
}

/// Every stored schema of items has items.
pub proof fn lemma_schemas_have_items(
    t: Tables<String, String>,
    occs: Seq<Occ<Seq<char>>>,
    role: Role,
    base: Seq<char>,
    canon: Seq<char>,
)
    requires
        streamed_schemas::tables_of(t, occs),
        places::all_apart(occs),
        role != Role::Object,
        order::firsts(streamed::stored_schemas(t, (tables::role_rank(role), base))).contains(canon),
    ensures
        records::positions(
            streamed::stored_refs(t, (tables::role_rank(role), base)),
            canon,
        ).len() > 0,
{
    let place = (tables::role_rank(role), base);
    let items = facts::items_at(occs, role, base);
    let rows = records::item_rows(base + "/"@, items);
    let refs = records::item_refs(base + "/"@, items);
    let stored = streamed::stored_refs(t, place);
    streamed_schemas::lemma_stored_schemas(t, occs, role, base);
    order::lemma_sorted_set(order::firsts(rows));
    let canons = order::sorted_set(order::firsts(rows));
    assert(order::firsts(records::distinct_rows(rows)) =~= canons);
    assert(order::firsts(rows).contains(canon));
    let i = choose|i: int| 0 <= i < rows.len() && order::firsts(rows)[i] == canon;
    let x = (canon, items[i].0);
    assert(refs[i] == x);
    assert(refs.contains(x));
    same_records::lemma_distinct_positions(occs, role, base);
    streamed_schemas::lemma_stored_refs(t, occs, role, base, x);
    same_records::lemma_under_contains(stored, canon, items[i].0);
    order::lemma_sorted_set(order::under(stored, canon));
    assert(records::positions(stored, canon).contains(items[i].0));
}

/// The records of streamed items: shape and source.
pub proof fn lemma_item_records_shape(
    t: Tables<String, String>,
    occs: Seq<Occ<Seq<char>>>,
    role: Role,
    r: Rec,
)
    requires
        streamed_schemas::tables_of(t, occs),
        places::all_apart(occs),
        role != Role::Object,
    ensures
        streamed::streamed_item_records(t, role).contains(r) ==> exists|base: Seq<char>|
            #[trigger]
            streamed::item_bases(t, tables::role_rank(role)).contains(base) && (r
                == records::container_record(base) || exists|c: Seq<char>| #[trigger]
                has_items(t, (tables::role_rank(role), base), c) && r == item_entry(
                    t,
                    (tables::role_rank(role), base),
                    c,
                )),
{
    let rank = tables::role_rank(role);
    let container = role == Role::ArrayItem;
    let bases = streamed::item_bases(t, rank);
    t.lemma_holds(recorder::log_of(occs));
    if streamed::streamed_item_records(t, role).contains(r) {
        same_records::lemma_bases_records(t, rank, bases, container, r);
        let i = choose|i: int|
            0 <= i < bases.len() && same_records::base_records(
                t,
                rank,
                #[trigger] bases[i],
                container,
            ).contains(r);
        let base = bases[i];
        assert forall|c: Seq<char>| #[trigger]
            order::firsts(streamed::stored_schemas(t, (rank, base))).contains(c) implies records::positions(
            streamed::stored_refs(t, (rank, base)),
            c,
        ).len() > 0 by {
            lemma_schemas_have_items(t, occs, role, base, c);
        }
        lemma_base_records(t, rank, base, container, r);
        assert(bases.contains(base));
    }
}

/// The record of an item is among the records.
pub proof fn lemma_item_record_found(
    t: Tables<String, String>,
    occs: Seq<Occ<Seq<char>>>,
    i: int,
)
    requires
        streamed_schemas::tables_of(t, occs),
        places::all_apart(occs),
        0 <= i < occs.len(),
        occs[i].role != Role::Object,
    ensures
        ({
            let o = occs[i];
            let place = (tables::role_rank(o.role), o.at);
            let k = (place, canon_of(o));
            &&& t.item_schema_counts.map().contains_key(k)
            &&& streamed::item_path(t, k) is Some
            &&& streamed::streamed_records(t).contains(item_entry(t, place, canon_of(o)))
            &&& item_entry(t, place, canon_of(o)).index_paths.contains(o.indexes)
            &&& json::compact_json(item_entry(t, place, canon_of(o)).schema) == canon_of(o)
        }),
{
    let o = occs[i];
    let role = o.role;
    let base = o.at;
    let rank = tables::role_rank(role);
    let place = (rank, base);
    let canon = canon_of(o);
    let k = (place, canon);
    let container = role == Role::ArrayItem;
    let items = facts::items_at(occs, role, base);
    let rows = records::item_rows(base + "/"@, items);
    let refs = records::item_refs(base + "/"@, items);
    let schemas = streamed::stored_schemas(t, place);
    let stored = streamed::stored_refs(t, place);
    t.lemma_holds(recorder::log_of(occs));
    lemma_item_among(occs, i);
    let j = choose|j: int| 0 <= j < items.len() && items[j] == (o.indexes, o.fields);
    assert(rows[j].0 == canon);
    assert(order::firsts(rows)[j] == canon);
    assert(order::firsts(rows).contains(canon));
    assert(refs[j] == (canon, o.indexes));
    assert(refs.contains((canon, o.indexes)));
    same_records::lemma_distinct_positions(occs, role, base);
    streamed_schemas::lemma_stored_refs(t, occs, role, base, (canon, o.indexes));
    streamed_schemas::lemma_stored_schemas(t, occs, role, base);
    order::lemma_sorted_set(order::firsts(rows));
    let canons = order::sorted_set(order::firsts(rows));
    assert(order::firsts(schemas) =~= canons);
    assert(order::firsts(schemas).contains(canon));
    same_records::lemma_under_contains(stored, canon, o.indexes);
    order::lemma_sorted_set(order::under(stored, canon));
    let positions = records::positions(stored, canon);
    assert(positions.contains(o.indexes));
    assert(has_items(t, place, canon));
    facts::lemma_log_items(occs, role, base, canon);
    order::lemma_under_nonempty(rows, canon);
    order::lemma_under_nonempty(recorder::log_of(occs).items, k);
    assert(t.item_schema_counts.map().contains_key(k));
    assert forall|c: Seq<char>| #[trigger]
        order::firsts(streamed::stored_schemas(t, (rank, base))).contains(c) implies records::positions(
        streamed::stored_refs(t, (rank, base)),
        c,
    ).len() > 0 by {
        lemma_schemas_have_items(t, occs, role, base, c);
    }
    let r = item_entry(t, place, canon);
    lemma_base_records(t, rank, base, container, r);
    same_records::lemma_item_bases(t, occs, role, base);
    let bases = streamed::item_bases(t, rank);
    let n = choose|n: int| 0 <= n < bases.len() && bases[n] == base;
    assert(same_records::base_records(t, rank, bases[n], container).contains(r));
    same_records::lemma_bases_records(t, rank, bases, container, r);
    let a = records::merged(streamed::streamed_candidates(t));
    let b = streamed::streamed_item_records(t, Role::ArrayItem);
    let c = streamed::streamed_item_records(t, Role::RootCollection);
    same_records::lemma_concat_contains(a + b, c, r);
    same_records::lemma_concat_contains(a, b, r);
    let m = choose|m: int| 0 <= m < schemas.len() && order::firsts(schemas)[m] == canon;
    order::lemma_under_unique(schemas, m);
    let same = order::under(rows, canon);
    assert(same.contains(same[0]));
    same_records::lemma_under_contains(rows, canon, same[0]);
    let q = choose|q: int| 0 <= q < rows.len() && rows[q] == (canon, same[0]);
    assert(schemas[m].1 == same[0]);
}

/// The schema of a record of items is that of an item.
pub proof fn lemma_item_entry_sorted(
    t: Tables<String, String>,
    occs: Seq<Occ<Seq<char>>>,
    role: Role,
    base: Seq<char>,
    canon: Seq<char>,
)
    requires
        streamed_schemas::tables_of(t, occs),
        role != Role::Object,
        order::firsts(streamed::stored_schemas(t, (tables::role_rank(role), base))).contains(canon),
    ensures
        order::ascending(
            json::schema_names(item_entry(t, (tables::role_rank(role), base), canon).schema),
        ),
{
    let place = (tables::role_rank(role), base);
    let prefix = base + "/"@;
    let items = facts::items_at(occs, role, base);
    let rows = records::item_rows(prefix, items);
    let schemas = streamed::stored_schemas(t, place);
    t.lemma_holds(recorder::log_of(occs));
    streamed_schemas::lemma_stored_schemas(t, occs, role, base);
    order::lemma_sorted_set(order::firsts(rows));
    let canons = order::sorted_set(order::firsts(rows));
    assert(order::firsts(schemas) =~= canons);
    let m = choose|m: int| 0 <= m < schemas.len() && order::firsts(schemas)[m] == canon;
    order::lemma_under_unique(schemas, m);
    order::lemma_under_nonempty(rows, canon);
    assert(order::firsts(rows).contains(canon));
    let same = order::under(rows, canon);
    assert(same.contains(same[0]));
    same_records::lemma_under_contains(rows, canon, same[0]);
    let q = choose|q: int| 0 <= q < rows.len() && rows[q] == (canon, same[0]);
    label::lemma_schema_names(prefix, seq![items[q].1]);
}

/// Streamed records list their own paths and sorted labels.
pub proof fn lemma_streamed_regular(t: Tables<String, String>, occs: Seq<Occ<Seq<char>>>)
    requires
        streamed_schemas::tables_of(t, occs),
        places::all_apart(occs),
    ensures
        same_index::regular(streamed::streamed_records(t)),
{
    let recs = streamed::streamed_records(t);
    let cands = streamed::streamed_candidates(t);
    let a = records::merged(cands);
    let b = streamed::streamed_item_records(t, Role::ArrayItem);
    let c = streamed::streamed_item_records(t, Role::RootCollection);
    t.lemma_holds(recorder::log_of(occs));
    assert(records::schemas_sorted(cands)) by {
        assert forall|i: int| 0 <= i < cands.len() implies order::ascending(
            json::schema_names((#[trigger] cands[i]).1),
        ) by {
            let base = t.object_totals.keys()[i];
            streamed::lemma_streamed_names(t, base, t.object_totals.map()[base] as int);
        }
    }
    assert forall|i: int| 0 <= i < recs.len() implies (
    #[trigger] recs[i]).object_paths.contains(recs[i].schema_path) && order::ascending(
        json::schema_names(recs[i].schema),
    ) by {
        let r = recs[i];
        assert(recs.contains(r));
        same_records::lemma_concat_contains(a + b, c, r);
        same_records::lemma_concat_contains(a, b, r);
        if a.contains(r) {
            lemma_merged_shape(cands, r);
        } else {
            let role = if b.contains(r) {
                Role::ArrayItem
            } else {
                Role::RootCollection
            };
            let rank = tables::role_rank(role);
            lemma_item_records_shape(t, occs, role, r);
            let base = choose|base: Seq<char>| #[trigger]
                streamed::item_bases(t, rank).contains(base) && (r == records::container_record(
                    base,
                ) || exists|c: Seq<char>| #[trigger]
                    has_items(t, (rank, base), c) && r == item_entry(t, (rank, base), c));
            assert(r.object_paths[0] == r.schema_path);
            if r != records::container_record(base) {
                let canon = choose|c: Seq<char>| #[trigger]
                    has_items(t, (rank, base), c) && r == item_entry(t, (rank, base), c);
                lemma_item_entry_sorted(t, occs, role, base, canon);
            }
        }
    }
}

/// The stored positions of one path are distinct.
pub proof fn lemma_stored_refs_functional(
    t: Tables<String, String>,
    place: (nat, Seq<char>),
    a: Seq<char>,
    b: Seq<char>,
    index: Seq<nat>,
)
    requires
        t.wf(),
        streamed::stored_refs(t, place).contains((a, index)),
        streamed::stored_refs(t, place).contains((b, index)),
    ensures
        a == b,
{
    let refs = streamed::stored_refs(t, place);
    let found = order::under(t.item_schema_index_refs.keys(), place);
    order::lemma_under_ascending(t.item_schema_index_refs.keys(), place);
    let i = choose|i: int| 0 <= i < refs.len() && refs[i] == (a, index);
    let j = choose|j: int| 0 <= j < refs.len() && refs[j] == (b, index);
    if i < j {
        order::lemma_before_excludes(found[i], found[j]);
    } else if j < i {
        order::lemma_before_excludes(found[j], found[i]);
    }
}

/// What a record with positions is.
pub proof fn lemma_positioned(
    t: Tables<String, String>,
    occs: Seq<Occ<Seq<char>>>,
    r: Rec,
) -> (w: (Role, Seq<char>, Seq<char>))
    requires
        streamed_schemas::tables_of(t, occs),
        places::all_apart(occs),
        streamed::streamed_records(t).contains(r),
        r.array_parent is Some,
    ensures
        w.0 != Role::Object,
        streamed::item_bases(t, tables::role_rank(w.0)).contains(w.1),
        has_items(t, (tables::role_rank(w.0), w.1), w.2),
        r == item_entry(t, (tables::role_rank(w.0), w.1), w.2),
{
    let cands = streamed::streamed_candidates(t);
    let a = records::merged(cands);
    let b = streamed::streamed_item_records(t, Role::ArrayItem);
    let c = streamed::streamed_item_records(t, Role::RootCollection);
    same_records::lemma_concat_contains(a + b, c, r);
    same_records::lemma_concat_contains(a, b, r);
    if a.contains(r) {
        let i = choose|i: int| 0 <= i < a.len() && a[i] == r;
        assert(a[i].array_parent is None);
    }
    let role = if b.contains(r) {
        Role::ArrayItem
    } else {
        Role::RootCollection
    };
    let rank = tables::role_rank(role);
    lemma_item_records_shape(t, occs, role, r);
    let base = choose|base: Seq<char>| #[trigger]
        streamed::item_bases(t, rank).contains(base) && (r == records::container_record(base)
            || exists|c: Seq<char>| #[trigger]
            has_items(t, (rank, base), c) && r == item_entry(t, (rank, base), c));
    let canon = choose|c: Seq<char>| #[trigger]
        has_items(t, (rank, base), c) && r == item_entry(t, (rank, base), c);
    (role, base, canon)
}

/// Items of arrays and items of the collection have different paths.
pub open spec fn roles_apart(occs: Seq<Occ<Seq<char>>>) -> bool {
    forall|i: int, j: int|
        0 <= i < occs.len() && 0 <= j < occs.len() && (#[trigger] occs[i]).role
            == Role::RootCollection && (#[trigger] occs[j]).role == Role::ArrayItem ==> occs[i].at
            != occs[j].at
}

/// Two records that list one position of one array are the same.
pub proof fn lemma_one_position(
    t: Tables<String, String>,
    occs: Seq<Occ<Seq<char>>>,
    r: Rec,
    s: Rec,
    index: Seq<nat>,
)
    requires
        streamed_schemas::tables_of(t, occs),
        places::all_apart(occs),
        roles_apart(occs),
        streamed::streamed_records(t).contains(r),
        streamed::streamed_records(t).contains(s),
        r.array_parent is Some,
        r.array_parent == s.array_parent,
        r.index_paths.contains(index),
        s.index_paths.contains(index),
    ensures
        r == s,
{
    let v = lemma_positioned(t, occs, r);
    let w = lemma_positioned(t, occs, s);
    t.lemma_holds(recorder::log_of(occs));
    same_records::lemma_json_file_injective(v.1, w.1);
    same_records::lemma_item_bases(t, occs, v.0, v.1);
    same_records::lemma_item_bases(t, occs, w.0, w.1);
    let i = lemma_items_from(occs, v.0, v.1);
    let j = lemma_items_from(occs, w.0, w.1);
    assert(v.0 == w.0);
    let place = (tables::role_rank(v.0), v.1);
    let refs = streamed::stored_refs(t, place);
    order::lemma_sorted_set(order::under(refs, v.2));
    order::lemma_sorted_set(order::under(refs, w.2));
    same_records::lemma_under_contains(refs, v.2, index);
    same_records::lemma_under_contains(refs, w.2, index);
    lemma_stored_refs_functional(t, place, v.2, w.2, index);
}

pub proof fn lemma_refs_functional(t: Tables<String, String>, occs: Seq<Occ<Seq<char>>>)
    requires
        streamed_schemas::tables_of(t, occs),
        places::all_apart(occs),
        roles_apart(occs),
    ensures
        same_index::functional(index::ref_pairs(streamed::streamed_records(t))),
{
    let recs = streamed::streamed_records(t);
    let pairs = index::ref_pairs(recs);
    assert forall|x: ((Seq<char>, Seq<nat>), Seq<char>), y: ((Seq<char>, Seq<nat>), Seq<char>)|
        #![trigger pairs.contains(x), pairs.contains(y)]
        pairs.contains(x) && pairs.contains(y) && x.0 == y.0 implies x.1 == y.1 by {
        same_index::lemma_ref_pairs(recs, x);
        same_index::lemma_ref_pairs(recs, y);
        let r = choose|r: Rec| #[trigger]
            recs.contains(r) && r.array_parent == Some(x.0.0) && r.index_paths.contains(x.0.1)
                && r.schema_path == x.1;
        let s = choose|r: Rec| #[trigger]
            recs.contains(r) && r.array_parent == Some(y.0.0) && r.index_paths.contains(y.0.1)
                && r.schema_path == y.1;
        lemma_one_position(t, occs, r, s, x.0.1);
    }
}

/// The schema path that counts an occurrence.
pub open spec fn target(c: StreamContext, o: Occ<Seq<char>>) -> Option<Seq<char>> {
    if o.role == Role::Object {
        streamed::object_target(c, o.at)
    } else {
        streamed::item_target(c, ((tables::role_rank(o.role), o.at), canon_of(o)))
    }
}

/// What holds of the streamed side of a comparison.
pub proof fn lemma_comparable(
    t: Tables<String, String>,
    outdir: Seq<char>,
    occs: Seq<Occ<Seq<Seq<char>>>>,
)
    requires
        comparable(t, outdir, occs),
    ensures
        ({
            let there = places::all_located(outdir, occs);
            let recs = records::built(outdir, occs);
            let others = streamed::streamed_records(t);
            &&& streamed_schemas::tables_of(t, there)
            &&& places::all_apart(there)
            &&& roles_apart(there)
            &&& same_records::same_elements(recs, others)
            &&& same_index::regular(recs)
            &&& same_index::regular(others)
            &&& same_index::functional(index::ref_pairs(others))
            &&& catalog::lookups_of(recs) == catalog::lookups_of(others)
        }),
{
    let there = places::all_located(outdir, occs);
    let recs = records::built(outdir, occs);
    let others = streamed::streamed_records(t);
    same_records::lemma_located_apart(outdir, occs);
    assert forall|i: int, j: int|
        0 <= i < there.len() && 0 <= j < there.len() && (#[trigger] there[i]).role
            == Role::RootCollection && (#[trigger] there[j]).role == Role::ArrayItem implies there[i].at
        != there[j].at by {
        assert(occs[i].at.len() == 1);
        assert(occs[j].at.len() > 0 && occs[j].at.len() != 1);
        if there[i].at == there[j].at {
            path::law_reference_paths_are_distinct(outdir, occs[i].at, occs[j].at);
        }
    }
    same_records::law_streamed_records_are_the_same(t, outdir, occs);
    lemma_streamed_regular(t, there);
    assert forall|i: int| 0 <= i < recs.len() implies (
    #[trigger] recs[i]).object_paths.contains(recs[i].schema_path) && order::ascending(
        json::schema_names(recs[i].schema),
    ) by {
        assert(recs.contains(recs[i]));
        assert(others.contains(recs[i]));
        let j = choose|j: int| 0 <= j < others.len() && others[j] == recs[i];
        assert(others[j].object_paths.contains(others[j].schema_path));
    }
    same_index::lemma_same_pairs(recs, others);
    lemma_refs_functional(t, there);
    overrides::lemma_same_overrides(t, outdir, occs);
    assert(same_records::same_elements(index::ref_pairs(others), index::ref_pairs(recs)));
    same_index::lemma_same_map(index::ref_pairs(others), index::ref_pairs(recs));
}

/// Where every occurrence can be counted, its row leads to the schema that describes it.
pub proof fn lemma_resolved(
    t: Tables<String, String>,
    outdir: Seq<char>,
    occs: Seq<Occ<Seq<Seq<char>>>>,
    i: int,
) -> (p: Seq<char>)
    requires
        comparable(t, outdir, occs),
        countable(outdir, occs),
        0 <= i < occs.len(),
    ensures
        ({
            let o = places::located(outdir, occs[i]);
            let recs = streamed::streamed_records(t);
            let l = catalog::lookups_of(recs);
            let c = streamed::stream_context(t, recs);
            &&& statistics::resolved(outdir, l.paths, l.refs, occs[i]) == Ok::<_, Fault>(p)
            &&& l.definitions.contains_key(p)
            &&& !index::is_container(l.definitions[p]) ==> forall|n: int|
                0 <= n < occs[i].fields.len() ==> json::schema_names(l.definitions[p]).contains(
                    (#[trigger] occs[i].fields[n]).0,
                )
            &&& target(c, o) == if index::is_container(l.definitions[p]) {
                None
            } else {
                Some(p)
            }
        }),
{
    let there = places::all_located(outdir, occs);
    let recs = streamed::streamed_records(t);
    let l = catalog::lookups_of(recs);
    let o = there[i];
    let file = path::json_file(o.at);
    lemma_comparable(t, outdir, occs);
    lemma_each_countable(outdir, l, occs, i);
    let p = statistics::resolved(outdir, l.paths, l.refs, occs[i])->Ok_0;
    if !index::is_container(l.definitions[p]) {
        lemma_labelled_names(l.definitions[p], occs[i].fields);
    }
    if o.role != Role::Object {
        let place = (tables::role_rank(o.role), o.at);
        let r = item_entry(t, place, canon_of(o));
        lemma_item_record_found(t, there, i);
        same_index::lemma_ref_pairs(recs, ((file, o.indexes), r.schema_path));
        same_index::lemma_last_wins_finds(
            index::ref_pairs(recs),
            (file, o.indexes),
            r.schema_path,
        );
    }
    p
}

/// Each occurrence can be counted if all can.
proof fn lemma_each_countable(
    outdir: Seq<char>,
    l: Lookups,
    occs: Seq<Occ<Seq<Seq<char>>>>,
    i: int,
)
    requires
        statistics::statistics_fault(outdir, l, occs) is None,
        0 <= i < occs.len(),
    ensures
        statistics::occurrence_fault(outdir, l, occs[i]) is None,
    decreases occs.len(),
{
    if i < occs.len() - 1 {
        lemma_each_countable(outdir, l, occs.drop_last(), i);
        assert(occs.drop_last()[i] == occs[i]);
    }
}

/// A schema that lacks no field has all the names.
proof fn lemma_labelled_names(
    schema: Seq<(Seq<char>, Seq<char>)>,
    fields: Seq<(Seq<char>, Json)>,
)
    requires
        statistics::unlabelled(schema, fields) is None,
    ensures
        forall|n: int|
            0 <= n < fields.len() ==> json::schema_names(schema).contains(
                (#[trigger] fields[n]).0,
            ),
    decreases fields.len(),
{
    if fields.len() > 0 {
        let d = fields.drop_last();
        lemma_labelled_names(schema, d);
        same_index::lemma_label_in(schema, fields.last().0);
        assert forall|n: int| 0 <= n < fields.len() implies json::schema_names(schema).contains(
            (#[trigger] fields[n]).0,
        ) by {
            if n < d.len() {
                assert(d[n] == fields[n]);
            }
        }
    }
}

/// Where no records share a path, an occurrence is found, and its schema has its fields.
pub proof fn lemma_found(
    t: Tables<String, String>,
    outdir: Seq<char>,
    occs: Seq<Occ<Seq<Seq<char>>>>,
    i: int,
) -> (p: Seq<char>)
    requires
        comparable(t, outdir, occs),
        same_index::paths_apart(records::built(outdir, occs)),
        0 <= i < occs.len(),
    ensures
        ({
            let l = catalog::lookups_of(streamed::streamed_records(t));
            &&& statistics::resolved(outdir, l.paths, l.refs, occs[i]) == Ok::<_, Fault>(p)
            &&& l.definitions.contains_key(p)
            &&& forall|n: int|
                0 <= n < occs[i].fields.len() ==> json::schema_names(l.definitions[p]).contains(
                    (#[trigger] occs[i].fields[n]).0,
                )
        }),
{
    let there = places::all_located(outdir, occs);
    let recs = streamed::streamed_records(t);
    let l = catalog::lookups_of(recs);
    let o = there[i];
    let file = path::json_file(o.at);
    let base = o.at;
    let mine = records::built(outdir, occs);
    lemma_comparable(t, outdir, occs);
    same_index::lemma_schemas_apart(mine);
    same_index::lemma_functional_definitions(mine);
    same_index::lemma_functional_paths(mine);
    same_index::lemma_same_pairs(mine, recs);
    same_index::lemma_same_map(index::definition_pairs(mine), index::definition_pairs(recs));
    same_index::lemma_same_map(index::path_pairs(mine), index::path_pairs(recs));
    lemma_item_among(there, i);
    if o.role == Role::Object {
        let objects = facts::objects_at(there, base);
        let cands = streamed::streamed_candidates(t);
        streamed_schemas::lemma_totals(t, there, base);
        streamed_schemas::lemma_streamed_schema(t, there, base);
        let bases = t.object_totals.keys();
        assert(t.object_totals.map().contains_key(base));
        let j = bases.index_of(base);
        assert(bases[j] == base);
        let cand = cands[j];
        let schema = label::schema_of(base + "/"@, objects);
        assert(cand == (file, schema));
        assert(cands.contains(cand));
        let r = lemma_merged_finds(cands, cand);
        let a = records::merged(cands);
        let b = streamed::streamed_item_records(t, Role::ArrayItem);
        let c = streamed::streamed_item_records(t, Role::RootCollection);
        same_records::lemma_concat_contains(a + b, c, r);
        same_records::lemma_concat_contains(a, b, r);
        assert(recs.contains(r));
        quoted::law_texts_tell_objects_apart(r.schema, schema);
        let p = r.schema_path;
        same_index::lemma_path_pairs(recs, (file, p));
        same_index::lemma_last_wins_finds(index::path_pairs(recs), file, p);
        same_index::lemma_definition_pairs(recs, (p, schema));
        same_index::lemma_last_wins_finds(index::definition_pairs(recs), p, schema);
        label::lemma_schema_names(base + "/"@, objects);
        order::lemma_sorted_set(label::all_names(objects));
        assert forall|n: int| 0 <= n < occs[i].fields.len() implies json::schema_names(
            l.definitions[p],
        ).contains((#[trigger] occs[i].fields[n]).0) by {
            lemma_all_names(objects, o.fields, n);
        }
        p
    } else {
        let place = (tables::role_rank(o.role), base);
        let canon = canon_of(o);
        let k = (place, canon);
        let r = item_entry(t, place, canon);
        lemma_item_record_found(t, there, i);
        let p = r.schema_path;
        let schema = recorder::item_schema(o.at, o.fields);
        quoted::law_texts_tell_objects_apart(r.schema, schema);
        same_index::lemma_ref_pairs(recs, ((file, o.indexes), p));
        same_index::lemma_last_wins_finds(index::ref_pairs(recs), (file, o.indexes), p);
        same_index::lemma_definition_pairs(recs, (p, schema));
        same_index::lemma_last_wins_finds(index::definition_pairs(recs), p, schema);
        let one = seq![o.fields];
        label::lemma_schema_names(base + "/"@, one);
        order::lemma_sorted_set(label::all_names(one));
        assert forall|n: int| 0 <= n < occs[i].fields.len() implies json::schema_names(
            l.definitions[p],
        ).contains((#[trigger] occs[i].fields[n]).0) by {
            assert(one[0] == o.fields);
            assert(one.contains(o.fields));
            lemma_all_names(one, o.fields, n);
        }
        p
    }
}

/// The names of the fields of an object are among all names.
pub proof fn lemma_all_names(
    objects: Seq<Seq<(Seq<char>, Json)>>,
    fields: Seq<(Seq<char>, Json)>,
    n: int,
)
    requires
        objects.contains(fields),
        0 <= n < fields.len(),
    ensures
        label::all_names(objects).contains(fields[n].0),
    decreases objects.len(),
{
    let d = objects.drop_last();
    let a = label::all_names(d);
    let b = json::names(objects.last());
    same_records::lemma_concat_contains(a, b, fields[n].0);
    if objects.last() == fields {
        assert(b[n] == fields[n].0);
    } else {
        let i = choose|i: int| 0 <= i < objects.len() && objects[i] == fields;
        assert(d[i] == fields);
        lemma_all_names(d, fields, n);
    }
}

/// A schema with all the names lacks no field.
pub proof fn lemma_all_labelled(
    schema: Seq<(Seq<char>, Seq<char>)>,
    fields: Seq<(Seq<char>, Json)>,
)
    requires
        forall|n: int|
            0 <= n < fields.len() ==> json::schema_names(schema).contains(
                (#[trigger] fields[n]).0,
            ),
    ensures
        statistics::unlabelled(schema, fields) is None,
    decreases fields.len(),
{
    if fields.len() > 0 {
        let d = fields.drop_last();
        assert forall|n: int| 0 <= n < d.len() implies json::schema_names(schema).contains(
            (#[trigger] d[n]).0,
        ) by {
            assert(fields[n] == d[n]);
        }
        lemma_all_labelled(schema, d);
        same_index::lemma_label_in(schema, fields.last().0);
        assert(fields[fields.len() - 1] == fields.last());
    }
}

/// Where no records share a path, every occurrence can be counted.
pub proof fn lemma_no_fault(
    t: Tables<String, String>,
    outdir: Seq<char>,
    occs: Seq<Occ<Seq<Seq<char>>>>,
    n: int,
)
    requires
        comparable(t, outdir, occs),
        same_index::paths_apart(records::built(outdir, occs)),
        0 <= n <= occs.len(),
    ensures
        statistics::statistics_fault(
            outdir,
            catalog::lookups_of(streamed::streamed_records(t)),
            occs.take(n),
        ) is None,
    decreases n,
{
    if n > 0 {
        let l = catalog::lookups_of(streamed::streamed_records(t));
        lemma_no_fault(t, outdir, occs, n - 1);
        assert(occs.take(n).drop_last() =~= occs.take(n - 1));
        assert(occs.take(n).last() == occs[n - 1]);
        let p = lemma_found(t, outdir, occs, n - 1);
        lemma_all_labelled(l.definitions[p], occs[n - 1].fields);
    }
}

/// How many pairs `g` leads to `p`.
pub open spec fn led<K, V, P>(pairs: Seq<(K, V)>, g: spec_fn(K) -> Option<P>, p: P) -> nat
    decreases pairs.len(),
{
    if pairs.len() == 0 {
        0
    } else {
        led(pairs.drop_last(), g, p) + if g(pairs.last().0) == Some(p) {
            1nat
        } else {
            0
        }
    }
}

pub proof fn lemma_led_concat<K, V, P>(
    a: Seq<(K, V)>,
    b: Seq<(K, V)>,
    g: spec_fn(K) -> Option<P>,
    p: P,
)
    ensures
        led(a + b, g, p) == led(a, g, p) + led(b, g, p),
    decreases b.len(),
{
    if b.len() == 0 {
        assert(a + b =~= a);
    } else {
        lemma_led_concat(a, b.drop_last(), g, p);
        assert((a + b).drop_last() =~= a + b.drop_last());
        assert((a + b).last() == b.last());
    }
}

/// How many pairs with one of `keys` `g` leads to `p`.
pub open spec fn led_among<K, V, P>(
    pairs: Seq<(K, V)>,
    keys: Seq<K>,
    g: spec_fn(K) -> Option<P>,
    p: P,
) -> nat
    decreases pairs.len(),
{
    if pairs.len() == 0 {
        0
    } else {
        led_among(pairs.drop_last(), keys, g, p) + if keys.contains(pairs.last().0) && g(
            pairs.last().0,
        ) == Some(p) {
            1nat
        } else {
            0
        }
    }
}

pub proof fn lemma_led_among_push<K, V, P>(
    pairs: Seq<(K, V)>,
    keys: Seq<K>,
    k: K,
    g: spec_fn(K) -> Option<P>,
    p: P,
)
    requires
        !keys.contains(k),
    ensures
        led_among(pairs, keys.push(k), g, p) == led_among(pairs, keys, g, p) + if g(k) == Some(p) {
            order::under(pairs, k).len()
        } else {
            0
        },
    decreases pairs.len(),
{
    if pairs.len() > 0 {
        lemma_led_among_push(pairs.drop_last(), keys, k, g, p);
        let x = pairs.last().0;
        let more = keys.push(k);
        assert(more[keys.len() as int] == k);
        if keys.contains(x) {
            let i = choose|i: int| 0 <= i < keys.len() && keys[i] == x;
            assert(more[i] == x);
        }
        if more.contains(x) && x != k {
            let i = choose|i: int| 0 <= i < more.len() && more[i] == x;
            assert(keys[i] == x);
        }
    }
}

pub proof fn lemma_led_among_none<K, V, P>(pairs: Seq<(K, V)>, g: spec_fn(K) -> Option<P>, p: P)
    ensures
        led_among(pairs, Seq::<K>::empty(), g, p) == 0,
    decreases pairs.len(),
{
    if pairs.len() > 0 {
        lemma_led_among_none(pairs.drop_last(), g, p);
    }
}

pub proof fn lemma_led_among_all<K, V, P>(
    pairs: Seq<(K, V)>,
    keys: Seq<K>,
    g: spec_fn(K) -> Option<P>,
    p: P,
)
    requires
        forall|i: int| 0 <= i < pairs.len() ==> keys.contains((#[trigger] pairs[i]).0),
    ensures
        led_among(pairs, keys, g, p) == led(pairs, g, p),
    decreases pairs.len(),
{
    if pairs.len() > 0 {
        let d = pairs.drop_last();
        assert forall|i: int| 0 <= i < d.len() implies keys.contains((#[trigger] d[i]).0) by {
            assert(keys.contains(pairs[i].0));
        }
        lemma_led_among_all(d, keys, g, p);
        assert(keys.contains(pairs[pairs.len() - 1].0));
    }
}

/// What rows with `keys` and `counts` add where `g` leads them.
pub open spec fn added<K, P>(keys: Seq<K>, counts: spec_fn(K) -> nat, g: spec_fn(K) -> Option<P>) -> Seq<
    (P, nat),
>
    decreases keys.len(),
{
    if keys.len() == 0 {
        Seq::empty()
    } else {
        added(keys.drop_last(), counts, g) + streamed::add_if(g(keys.last()), counts(keys.last()))
    }
}

pub proof fn lemma_sum_concat(a: Seq<nat>, b: Seq<nat>)
    ensures
        streamed::sum(a + b) == streamed::sum(a) + streamed::sum(b),
    decreases b.len(),
{
    if b.len() == 0 {
        assert(a + b =~= a);
    } else {
        lemma_sum_concat(a, b.drop_last());
        assert((a + b).drop_last() =~= a + b.drop_last());
        assert((a + b).last() == b.last());
    }
}

pub proof fn lemma_sum_under_concat<P>(a: Seq<(P, nat)>, b: Seq<(P, nat)>, p: P)
    ensures
        streamed::sum(order::under(a + b, p)) == streamed::sum(order::under(a, p)) + streamed::sum(
            order::under(b, p),
        ),
{
    order::lemma_under_concat(a, b, p);
    lemma_sum_concat(order::under(a, p), order::under(b, p));
}

/// The sums of rows count the pairs.
pub proof fn lemma_added<K, V, P>(
    pairs: Seq<(K, V)>,
    keys: Seq<K>,
    counts: spec_fn(K) -> nat,
    g: spec_fn(K) -> Option<P>,
    p: P,
)
    requires
        keys.no_duplicates(),
        forall|i: int|
            0 <= i < keys.len() ==> counts(#[trigger] keys[i]) == order::under(
                pairs,
                keys[i],
            ).len(),
    ensures
        streamed::sum(order::under(added(keys, counts, g), p)) == led_among(pairs, keys, g, p),
    decreases keys.len(),
{
    if keys.len() == 0 {
        assert(keys =~= Seq::<K>::empty());
        lemma_led_among_none::<K, V, P>(pairs, g, p);
        assert(order::under(added(keys, counts, g), p) =~= Seq::empty());
    } else {
        let d = keys.drop_last();
        let k = keys[keys.len() - 1];
        assert forall|i: int| 0 <= i < d.len() implies counts(#[trigger] d[i]) == order::under(
            pairs,
            d[i],
        ).len() by {
            assert(d[i] == keys[i]);
        }
        assert(d.no_duplicates()) by {
            assert forall|i: int, j: int| 0 <= i < d.len() && 0 <= j < d.len() && i != j implies d[i]
                != d[j] by {
                assert(keys[i] != keys[j]);
            }
        }
        lemma_added(pairs, d, counts, g, p);
        if d.contains(k) {
            let i = choose|i: int| 0 <= i < d.len() && d[i] == k;
            assert(keys[i] != keys[keys.len() - 1]);
        }
        assert(keys =~= d.push(k));
        lemma_led_among_push(pairs, d, k, g, p);
        let more = streamed::add_if(g(k), counts(k));
        lemma_sum_under_concat(added(d, counts, g), more, p);
        assert(streamed::sum(order::under(more, p)) == if g(k) == Some(p) {
            counts(k)
        } else {
            0
        }) by {
            if let Some(q) = g(k) {
                assert(more =~= seq![(q, counts(k))]);
                facts::lemma_under_one((q, counts(k)), p);
                if q == p {
                    assert(seq![counts(k)].drop_last() =~= Seq::empty());
                    reveal_with_fuel(streamed::sum, 2);
                }
            } else {
                assert(order::under(more, p) =~= Seq::empty());
            }
        }
    }
}

/// Rows with numbers above zero add to what they name.
pub proof fn lemma_added_positive<K, P>(
    keys: Seq<K>,
    counts: spec_fn(K) -> nat,
    g: spec_fn(K) -> Option<P>,
)
    requires
        forall|i: int| 0 <= i < keys.len() ==> counts(#[trigger] keys[i]) > 0,
    ensures
        positive(added(keys, counts, g)),
    decreases keys.len(),
{
    if keys.len() > 0 {
        let d = keys.drop_last();
        assert forall|i: int| 0 <= i < d.len() implies counts(#[trigger] d[i]) > 0 by {
            assert(d[i] == keys[i]);
        }
        lemma_added_positive(d, counts, g);
        let a = added(d, counts, g);
        let whole = added(keys, counts, g);
        assert(counts(keys[keys.len() - 1]) > 0);
        assert forall|i: int| 0 <= i < whole.len() implies (#[trigger] whole[i]).1 > 0 by {
            if i < a.len() {
                assert(whole[i] == a[i]);
            }
        }
    }
}

pub open spec fn positive<P>(pairs: Seq<(P, nat)>) -> bool {
    forall|i: int| 0 <= i < pairs.len() ==> (#[trigger] pairs[i]).1 > 0
}

pub proof fn lemma_positive_sum<P>(pairs: Seq<(P, nat)>, p: P)
    requires
        positive(pairs),
    ensures
        order::firsts(pairs).contains(p) <==> streamed::sum(order::under(pairs, p)) > 0,
    decreases pairs.len(),
{
    order::lemma_under_nonempty(pairs, p);
    if pairs.len() > 0 {
        let d = pairs.drop_last();
        assert(positive(d)) by {
            assert forall|i: int| 0 <= i < d.len() implies (#[trigger] d[i]).1 > 0 by {
                assert(pairs[i].1 > 0);
            }
        }
        lemma_positive_sum(d, p);
        order::lemma_under_nonempty(d, p);
        assert(pairs[pairs.len() - 1].1 > 0);
        if pairs.last().0 == p {
            assert(order::under(pairs, p).drop_last() =~= order::under(d, p));
        }
    }
}

pub proof fn lemma_positive_concat<P>(a: Seq<(P, nat)>, b: Seq<(P, nat)>)
    requires
        positive(a),
        positive(b),
    ensures
        positive(a + b),
{
    let c = a + b;
    assert forall|i: int| 0 <= i < c.len() implies (#[trigger] c[i]).1 > 0 by {
        if i < a.len() {
            assert(c[i] == a[i]);
        } else {
            assert(c[i] == b[i - a.len()]);
        }
    }
}

} // verus!
