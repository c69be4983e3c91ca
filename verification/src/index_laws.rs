//! What holds of an index: what it stores of records, and how it counts.

use crate::catalog;
use crate::index;
use crate::json;
use crate::json::Json;
use crate::order;
use crate::overrides;
use crate::path;
use crate::records::Rec;
use crate::same_records;
use crate::statistics;
use crate::statistics::{Fault, Lookups};
use crate::stream;
use crate::walk::{Occ, Role};
use vstd::prelude::*;

verus! {

/// No later record has the schema path of this one.
pub open spec fn last_of_path(recs: Seq<Rec>, i: int) -> bool {
    forall|j: int| i < j < recs.len() ==> (#[trigger] recs[j]).schema_path != recs[i].schema_path
}

/// The index has a schema for each schema path of a record, and no other: that of the last
/// record with the path.
pub proof fn law_stored_schemas(
    outdir: Seq<char>,
    recs: Seq<Rec>,
    occs: Seq<Occ<Seq<Seq<char>>>>,
    i: int,
    p: Seq<char>,
)
    ensures
        catalog::stored_of(outdir, recs, occs).definitions.contains_key(p) <==> exists|j: int|
            0 <= j < recs.len() && (#[trigger] recs[j]).schema_path == p,
        0 <= i < recs.len() && last_of_path(recs, i) ==> catalog::stored_of(
            outdir,
            recs,
            occs,
        ).definitions[recs[i].schema_path] == recs[i].schema,
{
    lemma_schemas(recs, i, p);
}

proof fn lemma_schemas(recs: Seq<Rec>, i: int, p: Seq<char>)
    ensures
        ({
            let all = index::last_wins(index::definition_pairs(recs));
            &&& all.contains_key(p) <==> exists|j: int|
                0 <= j < recs.len() && (#[trigger] recs[j]).schema_path == p
            &&& 0 <= i < recs.len() && last_of_path(recs, i) ==> all[recs[i].schema_path]
                == recs[i].schema
        }),
    decreases recs.len(),
{
    if recs.len() > 0 {
        let d = recs.drop_last();
        let n = recs.len() - 1;
        lemma_schemas(d, i, p);
        assert(index::definition_pairs(recs).drop_last() =~= index::definition_pairs(d));
        assert(index::definition_pairs(recs).last() == (recs[n].schema_path, recs[n].schema));
        assert forall|j: int| 0 <= j < n implies d[j] == #[trigger] recs[j] by {}
        if index::last_wins(index::definition_pairs(d)).contains_key(p) {
            let j = choose|j: int| 0 <= j < d.len() && (#[trigger] d[j]).schema_path == p;
            assert(recs[j].schema_path == p);
        }
        if exists|j: int| 0 <= j < recs.len() && (#[trigger] recs[j]).schema_path == p {
            let j = choose|j: int| 0 <= j < recs.len() && (#[trigger] recs[j]).schema_path == p;
            if j < n {
                assert(d[j].schema_path == p);
            }
        }
        if 0 <= i < n && last_of_path(recs, i) {
            assert(recs[n].schema_path != recs[i].schema_path);
            assert forall|j: int| i < j < d.len() implies (#[trigger] d[j]).schema_path
                != d[i].schema_path by {
                assert(recs[j].schema_path != recs[i].schema_path);
            }
        }
    }
}

/// The index has a schema path for each object path of a record, and no other: that of the last
/// record that lists the object path.
pub proof fn law_stored_object_paths(
    outdir: Seq<char>,
    recs: Seq<Rec>,
    occs: Seq<Occ<Seq<Seq<char>>>>,
    i: int,
    p: Seq<char>,
)
    ensures
        catalog::stored_of(outdir, recs, occs).paths.contains_key(p) <==> exists|j: int|
            0 <= j < recs.len() && (#[trigger] recs[j]).object_paths.contains(p),
        0 <= i < recs.len() && recs[i].object_paths.contains(p) && (forall|j: int|
            i < j < recs.len() ==> !(#[trigger] recs[j]).object_paths.contains(p))
            ==> catalog::stored_of(outdir, recs, occs).paths[p] == recs[i].schema_path,
{
    overrides::lemma_paths_latest(recs, p);
    lemma_latest(recs, overrides::lists_path(p), i);
    if exists|j: int| 0 <= j < recs.len() && (#[trigger] recs[j]).object_paths.contains(p) {
        let j = choose|j: int| 0 <= j < recs.len() && (#[trigger] recs[j]).object_paths.contains(p);
        assert(overrides::lists_path(p)(recs[j]));
    }
    if overrides::latest(recs, overrides::lists_path(p)) is Some {
        let j = choose|j: int| 0 <= j < recs.len() && overrides::lists_path(p)(#[trigger] recs[j]);
        assert(recs[j].object_paths.contains(p));
    }
}

proof fn lemma_latest(recs: Seq<Rec>, q: spec_fn(Rec) -> bool, i: int)
    ensures
        overrides::latest(recs, q) is Some <==> exists|j: int|
            0 <= j < recs.len() && q(#[trigger] recs[j]),
        0 <= i < recs.len() && q(recs[i]) && (forall|j: int|
            i < j < recs.len() ==> !q(#[trigger] recs[j])) ==> overrides::latest(recs, q) == Some(
            recs[i],
        ),
    decreases recs.len(),
{
    if recs.len() > 0 {
        let d = recs.drop_last();
        let n = recs.len() - 1;
        lemma_latest(d, q, i);
        assert forall|j: int| 0 <= j < n implies d[j] == #[trigger] recs[j] by {}
        if exists|j: int| 0 <= j < d.len() && q(#[trigger] d[j]) {
            let j = choose|j: int| 0 <= j < d.len() && q(#[trigger] d[j]);
            assert(q(recs[j]));
        }
        if exists|j: int| 0 <= j < recs.len() && q(#[trigger] recs[j]) {
            let j = choose|j: int| 0 <= j < recs.len() && q(#[trigger] recs[j]);
            if j < n {
                assert(q(d[j]));
            }
        }
        assert(recs.last() == recs[n]);
        if 0 <= i < n && q(recs[i]) && (forall|j: int| i < j < recs.len() ==> !q(#[trigger] recs[j])) {
            assert(!q(recs[n]));
            assert forall|j: int| i < j < d.len() implies !q(#[trigger] d[j]) by {
                assert(!q(recs[j]));
            }
        }
    }
}

/// The record lists this position of this array.
pub open spec fn lists_position(r: Rec, array: Seq<char>, position: Seq<nat>) -> bool {
    r.array_parent == Some(array) && r.index_paths.contains(position)
}

/// The index has a schema path for each item position of a record, and no other: that of the last
/// record that lists the position.
pub proof fn law_stored_item_positions(
    outdir: Seq<char>,
    recs: Seq<Rec>,
    occs: Seq<Occ<Seq<Seq<char>>>>,
    i: int,
    array: Seq<char>,
    position: Seq<nat>,
)
    ensures
        catalog::stored_of(outdir, recs, occs).refs.contains_key((array, position)) <==> exists|
            j: int,
        |
            0 <= j < recs.len() && lists_position(#[trigger] recs[j], array, position),
        0 <= i < recs.len() && lists_position(recs[i], array, position) && (forall|j: int|
            i < j < recs.len() ==> !lists_position(#[trigger] recs[j], array, position))
            ==> catalog::stored_of(outdir, recs, occs).refs[(array, position)]
            == recs[i].schema_path,
{
    lemma_refs(recs, i, array, position);
}

proof fn lemma_refs(recs: Seq<Rec>, i: int, array: Seq<char>, position: Seq<nat>)
    ensures
        ({
            let all = index::last_wins(index::ref_pairs(recs));
            &&& all.contains_key((array, position)) <==> exists|j: int|
                0 <= j < recs.len() && lists_position(#[trigger] recs[j], array, position)
            &&& 0 <= i < recs.len() && lists_position(recs[i], array, position) && (forall|j: int|
                i < j < recs.len() ==> !lists_position(#[trigger] recs[j], array, position))
                ==> all[(array, position)] == recs[i].schema_path
        }),
    decreases recs.len(),
{
    if recs.len() > 0 {
        let d = recs.drop_last();
        let n = recs.len() - 1;
        let k = (array, position);
        let own = index::refs_of(recs[n]);
        lemma_refs(d, i, array, position);
        overrides::lemma_last_wins_concat(index::ref_pairs(d), own, k);
        stream::lemma_last_wins_under(own, k);
        assert forall|j: int| 0 <= j < n implies d[j] == #[trigger] recs[j] by {}
        let u = order::under(own, k);
        if lists_position(recs[n], array, position) {
            let m = choose|m: int|
                0 <= m < recs[n].index_paths.len() && recs[n].index_paths[m] == position;
            assert(own[m] == (k, recs[n].schema_path));
            assert(own.contains((k, recs[n].schema_path)));
            same_records::lemma_under_contains(own, k, recs[n].schema_path);
        }
        if u.len() > 0 {
            assert(u.contains(u[u.len() - 1]));
            same_records::lemma_under_contains(own, k, u.last());
            let m = choose|m: int| 0 <= m < own.len() && own[m] == (k, u.last());
            assert(recs[n].index_paths[m] == position);
            assert(lists_position(recs[n], array, position));
        }
        if exists|j: int| 0 <= j < d.len() && lists_position(#[trigger] d[j], array, position) {
            let j = choose|j: int|
                0 <= j < d.len() && lists_position(#[trigger] d[j], array, position);
            assert(lists_position(recs[j], array, position));
        }
        if exists|j: int| 0 <= j < recs.len() && lists_position(#[trigger] recs[j], array, position) {
            let j = choose|j: int|
                0 <= j < recs.len() && lists_position(#[trigger] recs[j], array, position);
            if j < n {
                assert(lists_position(d[j], array, position));
            }
        }
        if 0 <= i < n && lists_position(recs[i], array, position) && (forall|j: int|
            i < j < recs.len() ==> !lists_position(#[trigger] recs[j], array, position)) {
            assert(!lists_position(recs[n], array, position));
            assert forall|j: int| i < j < d.len() implies !lists_position(
                #[trigger] d[j],
                array,
                position,
            ) by {
                assert(!lists_position(recs[j], array, position));
            }
        }
    }
}

/// The path of the schema that describes an object, by where it stands: in a field by its path,
/// in an array or a collection by its position there.
pub open spec fn is_described_by(
    outdir: Seq<char>,
    l: Lookups,
    o: Occ<Seq<Seq<char>>>,
    p: Seq<char>,
) -> bool {
    let file = path::reference(outdir, o.at) + ".json"@;
    match o.role {
        Role::Object => l.paths.contains_key(file) && l.paths[file] == p,
        _ => l.refs.contains_key((file, o.indexes)) && l.refs[(file, o.indexes)] == p,
    }
}

/// The schema with this path describes objects, and is no reference to others.
pub open spec fn counts_objects(l: Lookups, p: Seq<char>) -> bool {
    !(l.definitions[p].len() == 1 && l.definitions[p][0].0 == "$refs_mut"@)
}

proof fn lemma_described(
    outdir: Seq<char>,
    l: Lookups,
    o: Occ<Seq<Seq<char>>>,
    p: Seq<char>,
)
    ensures
        statistics::resolved(outdir, l.paths, l.refs, o) == Ok::<_, Fault>(p) <==> is_described_by(
            outdir,
            l,
            o,
            p,
        ),
{
}

/// The objects that the schema with this path describes.
pub open spec fn objects_of(
    outdir: Seq<char>,
    l: Lookups,
    occs: Seq<Occ<Seq<Seq<char>>>>,
    p: Seq<char>,
) -> Seq<Occ<Seq<Seq<char>>>> {
    occs.filter(|o: Occ<Seq<Seq<char>>>| is_described_by(outdir, l, o, p))
}

proof fn lemma_hits(
    outdir: Seq<char>,
    l: Lookups,
    occs: Seq<Occ<Seq<Seq<char>>>>,
    p: Seq<char>,
)
    ensures
        counts_objects(l, p) ==> order::under(statistics::hits(outdir, l, occs), p) == objects_of(
            outdir,
            l,
            occs,
            p,
        ).map_values(|o: Occ<Seq<Seq<char>>>| o.fields),
        !counts_objects(l, p) ==> order::under(statistics::hits(outdir, l, occs), p).len() == 0,
    decreases occs.len(),
{
    reveal(Seq::filter);
    if occs.len() > 0 {
        let d = occs.drop_last();
        lemma_hits(outdir, l, d, p);
        lemma_described(outdir, l, occs.last(), p);
        let whole = statistics::hits(outdir, l, occs);
        let less = statistics::hits(outdir, l, d);
        match statistics::resolved(outdir, l.paths, l.refs, occs.last()) {
            Ok(q) => {
                if !index::is_container(l.definitions[q]) {
                    assert(whole.drop_last() =~= less);
                }
            },
            Err(_) => {},
        }
        if counts_objects(l, p) {
            assert(order::under(whole, p) =~= objects_of(outdir, l, occs, p).map_values(
                |o: Occ<Seq<Seq<char>>>| o.fields,
            ));
        }
    } else {
        assert(order::under(statistics::hits(outdir, l, occs), p) =~= objects_of(
            outdir,
            l,
            occs,
            p,
        ).map_values(|o: Occ<Seq<Seq<char>>>| o.fields));
    }
}

/// The object count of a schema is the number of the objects that it describes; a schema without
/// objects has none, nor has one that refers to others.
pub proof fn law_object_counts(
    outdir: Seq<char>,
    recs: Seq<Rec>,
    occs: Seq<Occ<Seq<Seq<char>>>>,
    p: Seq<char>,
)
    ensures
        ({
            let l = catalog::lookups_of(recs);
            let objects = catalog::stored_of(outdir, recs, occs).objects;
            let own = objects_of(outdir, l, occs, p);
            &&& objects.contains_key(p) <==> own.len() > 0 && counts_objects(l, p)
            &&& objects.contains_key(p) ==> objects[p] == own.len()
        }),
{
    let l = catalog::lookups_of(recs);
    let hits = statistics::hits(outdir, l, occs);
    lemma_hits(outdir, l, occs, p);
    order::lemma_under_nonempty(hits, p);
}

/// An object has a field with this name.
pub open spec fn has_field(name: Seq<char>) -> spec_fn(Seq<(Seq<char>, Json)>) -> bool {
    |fields: Seq<(Seq<char>, Json)>| json::names(fields).contains(name)
}

proof fn lemma_field_hits(hits: Seq<(Seq<char>, Seq<(Seq<char>, Json)>)>, p: Seq<char>, name: Seq<char>)
    requires
        forall|i: int|
            0 <= i < hits.len() ==> order::ascending(json::names((#[trigger] hits[i]).1)),
    ensures
        order::under(statistics::field_hits(hits), (p, name)).len() == order::under(hits, p).filter(
            has_field(name),
        ).len(),
    decreases hits.len(),
{
    reveal(Seq::filter);
    if hits.len() > 0 {
        let d = hits.drop_last();
        let last = hits[hits.len() - 1];
        assert forall|i: int| 0 <= i < d.len() implies order::ascending(
            json::names((#[trigger] d[i]).1),
        ) by {
            assert(d[i] == hits[i]);
        }
        lemma_field_hits(d, p, name);
        let own = statistics::hits_of_fields(last.0, last.1);
        order::lemma_under_concat(statistics::field_hits(d), own, (p, name));
        let names = json::names(last.1);
        if last.0 == p {
            assert(order::under(hits, p).drop_last() =~= order::under(d, p));
            assert(order::under(hits, p).last() == last.1);
        }
        if last.0 == p && names.contains(name) {
            let i = choose|i: int| 0 <= i < names.len() && names[i] == name;
            assert forall|j: int| 0 <= j < own.len() implies (i <= j < i + 1 <==> (
            #[trigger] own[j]).0 == (p, name)) by {
                assert(names[j] == last.1[j].0);
                if j < i {
                    order::lemma_before_excludes(names[j], names[i]);
                } else if i < j {
                    order::lemma_before_excludes(names[i], names[j]);
                }
            }
            order::lemma_under_range(own, (p, name), i, i + 1);
        } else {
            assert forall|j: int| 0 <= j < own.len() implies (#[trigger] own[j]).0 != (p, name) by {
                assert(names[j] == last.1[j].0);
            }
            order::lemma_under_none(own, (p, name));
        }
    }
}

proof fn lemma_tidy_hits(outdir: Seq<char>, l: Lookups, occs: Seq<Occ<Seq<Seq<char>>>>)
    requires
        forall|i: int|
            0 <= i < occs.len() ==> order::ascending(json::names((#[trigger] occs[i]).fields)),
    ensures
        forall|i: int|
            0 <= i < statistics::hits(outdir, l, occs).len() ==> order::ascending(
                json::names((#[trigger] statistics::hits(outdir, l, occs)[i]).1),
            ),
    decreases occs.len(),
{
    if occs.len() > 0 {
        let d = occs.drop_last();
        assert forall|i: int| 0 <= i < d.len() implies order::ascending(
            json::names((#[trigger] d[i]).fields),
        ) by {
            assert(d[i] == occs[i]);
        }
        lemma_tidy_hits(outdir, l, d);
        let less = statistics::hits(outdir, l, d);
        let whole = statistics::hits(outdir, l, occs);
        assert(order::ascending(json::names(occs[occs.len() - 1].fields)));
        assert forall|i: int| 0 <= i < whole.len() implies order::ascending(
            json::names((#[trigger] whole[i]).1),
        ) by {
            if i < less.len() {
                assert(whole[i] == less[i]);
            }
        }
    }
}

/// The count of a field is the number of the objects of its schema that have it, and its label is
/// the one that the schema gives it. A field that no object has is not counted.
pub proof fn law_field_counts(
    outdir: Seq<char>,
    recs: Seq<Rec>,
    occs: Seq<Occ<Seq<Seq<char>>>>,
    p: Seq<char>,
    name: Seq<char>,
    i: int,
)
    requires
        forall|i: int|
            0 <= i < occs.len() ==> order::ascending(json::names((#[trigger] occs[i]).fields)),
        counts_objects(catalog::lookups_of(recs), p),
    ensures
        ({
            let l = catalog::lookups_of(recs);
            let fields = catalog::stored_of(outdir, recs, occs).fields;
            let own = objects_of(outdir, l, occs, p).map_values(
                |o: Occ<Seq<Seq<char>>>| o.fields,
            ).filter(has_field(name));
            let schema = l.definitions[p];
            &&& fields.contains_key((p, name)) <==> own.len() > 0
            &&& fields.contains_key((p, name)) ==> fields[(p, name)].1 == own.len()
            &&& fields.contains_key((p, name)) && 0 <= i < schema.len() && schema[i].0 == name
                && order::ascending(json::schema_names(schema)) ==> fields[(p, name)].0
                == schema[i].1
        }),
{
    let l = catalog::lookups_of(recs);
    let hits = statistics::hits(outdir, l, occs);
    let pairs = statistics::field_hits(hits);
    lemma_tidy_hits(outdir, l, occs);
    lemma_field_hits(hits, p, name);
    lemma_hits(outdir, l, occs, p);
    order::lemma_under_nonempty(pairs, (p, name));
    let schema = l.definitions[p];
    if 0 <= i < schema.len() && schema[i].0 == name && order::ascending(json::schema_names(schema)) {
        assert(order::firsts(schema) =~= json::schema_names(schema));
        order::lemma_under_unique(schema, i);
    }
}

/// An object can be counted: a schema describes it, and has a label for each of its fields.
pub open spec fn is_countable(outdir: Seq<char>, l: Lookups, o: Occ<Seq<Seq<char>>>) -> bool {
    exists|p: Seq<char>| #[trigger]
        is_described_by(outdir, l, o, p) && l.definitions.contains_key(p) && (counts_objects(l, p)
            ==> forall|i: int|
            0 <= i < o.fields.len() ==> json::schema_names(l.definitions[p]).contains(
                (#[trigger] o.fields[i]).0,
            ))
}

proof fn lemma_unlabelled(
    schema: Seq<(Seq<char>, Seq<char>)>,
    fields: Seq<(Seq<char>, Json)>,
)
    ensures
        statistics::unlabelled(schema, fields) is None <==> forall|i: int|
            0 <= i < fields.len() ==> json::schema_names(schema).contains(
                (#[trigger] fields[i]).0,
            ),
    decreases fields.len(),
{
    if fields.len() > 0 {
        let d = fields.drop_last();
        let n = fields.len() - 1;
        lemma_unlabelled(schema, d);
        assert(order::firsts(schema) =~= json::schema_names(schema));
        order::lemma_under_nonempty(schema, fields[n].0);
        assert forall|i: int| 0 <= i < n implies d[i] == #[trigger] fields[i] by {}
        if statistics::unlabelled(schema, d) is Some {
            let i = choose|i: int|
                0 <= i < d.len() && !json::schema_names(schema).contains((#[trigger] d[i]).0);
            assert(fields[i] == d[i]);
        }
    }
}

proof fn lemma_countable(outdir: Seq<char>, l: Lookups, o: Occ<Seq<Seq<char>>>)
    ensures
        statistics::occurrence_fault(outdir, l, o) is None <==> is_countable(outdir, l, o),
{
    match statistics::resolved(outdir, l.paths, l.refs, o) {
        Ok(p) => {
            lemma_described(outdir, l, o, p);
            lemma_unlabelled(l.definitions[p], o.fields);
            if is_countable(outdir, l, o) {
                let q = choose|q: Seq<char>| #[trigger]
                    is_described_by(outdir, l, o, q) && l.definitions.contains_key(q) && (
                    counts_objects(l, q) ==> forall|i: int|
                        0 <= i < o.fields.len() ==> json::schema_names(l.definitions[q]).contains(
                            (#[trigger] o.fields[i]).0,
                        ));
                lemma_described(outdir, l, o, q);
            }
            if statistics::occurrence_fault(outdir, l, o) is None {
                assert(is_described_by(outdir, l, o, p));
            }
        },
        Err(_) => {
            if is_countable(outdir, l, o) {
                let q = choose|q: Seq<char>| #[trigger]
                    is_described_by(outdir, l, o, q) && l.definitions.contains_key(q) && (
                    counts_objects(l, q) ==> forall|i: int|
                        0 <= i < o.fields.len() ==> json::schema_names(l.definitions[q]).contains(
                            (#[trigger] o.fields[i]).0,
                        ));
                lemma_described(outdir, l, o, q);
            }
        },
    }
}

/// Counting fails exactly if some object cannot be counted, with the fault of the first.
pub proof fn law_counting_fails(
    outdir: Seq<char>,
    l: Lookups,
    occs: Seq<Occ<Seq<Seq<char>>>>,
    k: int,
)
    ensures
        statistics::statistics_fault(outdir, l, occs) is None <==> forall|i: int|
            0 <= i < occs.len() ==> is_countable(outdir, l, #[trigger] occs[i]),
        0 <= k < occs.len() && !is_countable(outdir, l, occs[k]) && (forall|i: int|
            0 <= i < k ==> is_countable(outdir, l, #[trigger] occs[i]))
            ==> statistics::statistics_fault(outdir, l, occs) == statistics::occurrence_fault(
            outdir,
            l,
            occs[k],
        ),
    decreases occs.len(),
{
    if occs.len() > 0 {
        let d = occs.drop_last();
        let n = occs.len() - 1;
        law_counting_fails(outdir, l, d, k);
        lemma_countable(outdir, l, occs[n]);
        assert(occs.last() == occs[n]);
        assert forall|i: int| 0 <= i < n implies d[i] == #[trigger] occs[i] by {}
        if statistics::statistics_fault(outdir, l, d) is Some {
            let i = choose|i: int| 0 <= i < d.len() && !is_countable(outdir, l, #[trigger] d[i]);
            assert(occs[i] == d[i]);
        }
        if 0 <= k < n && !is_countable(outdir, l, occs[k]) && (forall|i: int|
            0 <= i < k ==> is_countable(outdir, l, #[trigger] occs[i])) {
            assert forall|i: int| 0 <= i < k implies is_countable(outdir, l, #[trigger] d[i]) by {
                assert(is_countable(outdir, l, occs[i]));
            }
            assert(!is_countable(outdir, l, d[k]));
            lemma_countable(outdir, l, occs[k]);
        }
    }
}

/// Why an object cannot be counted: the first thing that is missing, of the path or the position
/// that it stands at, the schema that describes it, and the labels of its fields.
pub proof fn law_faults_of_an_object(
    outdir: Seq<char>,
    l: Lookups,
    o: Occ<Seq<Seq<char>>>,
    p: Seq<char>,
    k: int,
)
    ensures
        ({
            let file = path::reference(outdir, o.at) + ".json"@;
            let fault = statistics::occurrence_fault(outdir, l, o);
            &&& o.role == Role::Object && !l.paths.contains_key(file) ==> fault == Some(
                Fault::SchemaPath(file),
            )
            &&& o.role != Role::Object && !l.refs.contains_key((file, o.indexes)) ==> fault == Some(
                Fault::IndexRef(file, o.indexes),
            )
            &&& is_described_by(outdir, l, o, p) && !l.definitions.contains_key(p) ==> fault
                == Some(Fault::Schema(p))
            &&& is_described_by(outdir, l, o, p) && l.definitions.contains_key(p)
                && counts_objects(l, p) && 0 <= k < o.fields.len() && !json::schema_names(
                l.definitions[p],
            ).contains(o.fields[k].0) && (forall|i: int|
                0 <= i < k ==> json::schema_names(l.definitions[p]).contains(
                    (#[trigger] o.fields[i]).0,
                )) ==> fault == Some(Fault::FieldType(p, o.fields[k].0))
        }),
{
    lemma_described(outdir, l, o, p);
    if is_described_by(outdir, l, o, p) && l.definitions.contains_key(p) && counts_objects(l, p)
        && 0 <= k < o.fields.len() && !json::schema_names(l.definitions[p]).contains(
        o.fields[k].0,
    ) && (forall|i: int|
        0 <= i < k ==> json::schema_names(l.definitions[p]).contains((#[trigger] o.fields[i]).0)) {
        lemma_first_unlabelled(l.definitions[p], o.fields, k);
    }
}

proof fn lemma_first_unlabelled(
    schema: Seq<(Seq<char>, Seq<char>)>,
    fields: Seq<(Seq<char>, Json)>,
    k: int,
)
    requires
        0 <= k < fields.len(),
        !json::schema_names(schema).contains(fields[k].0),
        forall|i: int|
            0 <= i < k ==> json::schema_names(schema).contains((#[trigger] fields[i]).0),
    ensures
        statistics::unlabelled(schema, fields) == Some(fields[k].0),
    decreases fields.len(),
{
    let d = fields.drop_last();
    let n = fields.len() - 1;
    assert(order::firsts(schema) =~= json::schema_names(schema));
    order::lemma_under_nonempty(schema, fields[n].0);
    assert forall|i: int| 0 <= i < n implies d[i] == #[trigger] fields[i] by {}
    if k < n {
        assert forall|i: int| 0 <= i < k implies json::schema_names(schema).contains(
            (#[trigger] d[i]).0,
        ) by {
            assert(json::schema_names(schema).contains(fields[i].0));
        }
        lemma_first_unlabelled(schema, d, k);
    } else {
        assert forall|i: int| 0 <= i < d.len() implies json::schema_names(schema).contains(
            (#[trigger] d[i]).0,
        ) by {
            assert(json::schema_names(schema).contains(fields[i].0));
        }
        lemma_unlabelled(schema, d);
    }
}

/// What a fault says: which entry is missing, and for what.
pub proof fn law_fault_messages(p: Seq<char>, position: Seq<nat>, name: Seq<char>)
    ensures
        statistics::fault_message(Fault::SchemaPath(p)) == "missing schema_paths entry for "@ + p,
        statistics::fault_message(Fault::IndexRef(p, position))
            == "missing array_index_refs entry for "@ + p + " at "@
            + crate::index_path::json_text(position),
        statistics::fault_message(Fault::Schema(p)) == "missing in-memory schema for "@ + p,
        statistics::fault_message(Fault::FieldType(p, name)) == "missing field type for "@ + p
            + "."@ + name + " in canonical schema"@,
{
}

/// The kind of a schema: one with the one field `$refs_mut` stands for different items.
pub proof fn law_schema_kinds(schema: Seq<(Seq<char>, Seq<char>)>)
    ensures
        schema.len() == 1 && schema[0].0 == "$refs_mut"@ ==> index::kind_of_schema(schema)
            == "heterogeneous"@,
        schema.len() != 1 ==> index::kind_of_schema(schema) == "object"@,
        schema.len() == 1 && schema[0].0 != "$refs_mut"@ ==> index::kind_of_schema(schema)
            == "object"@,
{
}

} // verus!
