//! Records with paths of their own give the same index in any order.

use crate::index;
use crate::json;
use crate::order;
use crate::overrides;
use crate::records::Rec;
use crate::same_records;
use crate::stream;
use crate::streamed;
use vstd::prelude::*;

verus! {

/// A first component has one second component.
pub open spec fn functional<K, V>(pairs: Seq<(K, V)>) -> bool {
    forall|a: (K, V), b: (K, V)|
        #![trigger pairs.contains(a), pairs.contains(b)]
        pairs.contains(a) && pairs.contains(b) && a.0 == b.0 ==> a.1 == b.1
}

/// What the map of pairs holds comes from the pairs.
pub proof fn lemma_last_wins_from<K, V>(pairs: Seq<(K, V)>, k: K)
    ensures
        index::last_wins(pairs).contains_key(k) ==> pairs.contains(
            (k, index::last_wins(pairs)[k]),
        ),
{
    stream::lemma_last_wins_under(pairs, k);
    let u = order::under(pairs, k);
    if u.len() > 0 {
        assert(u.contains(u[u.len() - 1]));
        same_records::lemma_under_contains(pairs, k, u.last());
    }
}

/// In the map of functional pairs each pair is found.
pub proof fn lemma_last_wins_finds<K, V>(pairs: Seq<(K, V)>, k: K, v: V)
    requires
        functional(pairs),
        pairs.contains((k, v)),
    ensures
        index::last_wins(pairs).contains_key(k),
        index::last_wins(pairs)[k] == v,
{
    stream::lemma_last_wins_under(pairs, k);
    same_records::lemma_under_contains(pairs, k, v);
    let u = order::under(pairs, k);
    let i = choose|i: int| 0 <= i < u.len() && u[i] == v;
    lemma_last_wins_from(pairs, k);
}

pub proof fn lemma_same_map<K, V>(a: Seq<(K, V)>, b: Seq<(K, V)>)
    requires
        functional(a),
        same_records::same_elements(a, b),
    ensures
        functional(b),
        index::last_wins(a) == index::last_wins(b),
{
    assert(functional(b)) by {
        assert forall|x: (K, V), y: (K, V)|
            #![trigger b.contains(x), b.contains(y)]
            b.contains(x) && b.contains(y) && x.0 == y.0 implies x.1 == y.1 by {
            assert(a.contains(x) && a.contains(y));
        }
    }
    let l = index::last_wins(a);
    let r = index::last_wins(b);
    assert forall|k: K| l.contains_key(k) <==> r.contains_key(k) by {
        if l.contains_key(k) {
            lemma_last_wins_from(a, k);
            assert(b.contains((k, l[k])));
            lemma_last_wins_finds(b, k, l[k]);
        }
        if r.contains_key(k) {
            lemma_last_wins_from(b, k);
            assert(a.contains((k, r[k])));
            lemma_last_wins_finds(a, k, r[k]);
        }
    }
    assert forall|k: K| l.contains_key(k) implies #[trigger] l[k] == r[k] by {
        lemma_last_wins_from(a, k);
        assert(b.contains((k, l[k])));
        lemma_last_wins_finds(b, k, l[k]);
    }
    assert(l =~= r);
}

/// Two records share an object path.
pub open spec fn share_path(r: Rec, s: Rec) -> bool {
    exists|p: Seq<char>| #[trigger] r.object_paths.contains(p) && s.object_paths.contains(p)
}

/// No two records share an object path, nor is one listed twice.
pub open spec fn paths_apart(recs: Seq<Rec>) -> bool {
    forall|i: int, j: int|
        0 <= i < j < recs.len() ==> !share_path(#[trigger] recs[i], #[trigger] recs[j])
}

/// No two records have one schema path.
pub open spec fn schemas_apart(recs: Seq<Rec>) -> bool {
    forall|i: int, j: int|
        0 <= i < j < recs.len() ==> (#[trigger] recs[i]).schema_path != (
        #[trigger] recs[j]).schema_path
}

/// Each record lists its own path, and its labels by ascending names.
pub open spec fn regular(recs: Seq<Rec>) -> bool {
    forall|i: int|
        0 <= i < recs.len() ==> (#[trigger] recs[i]).object_paths.contains(recs[i].schema_path)
            && order::ascending(json::schema_names(recs[i].schema))
}

/// Records that share a path are the same.
pub proof fn lemma_one_record(recs: Seq<Rec>, r: Rec, s: Rec, p: Seq<char>)
    requires
        paths_apart(recs),
        recs.contains(r),
        recs.contains(s),
        r.object_paths.contains(p),
        s.object_paths.contains(p),
    ensures
        r == s,
{
    let i = choose|i: int| 0 <= i < recs.len() && recs[i] == r;
    let j = choose|j: int| 0 <= j < recs.len() && recs[j] == s;
    if i < j {
        assert(share_path(recs[i], recs[j]));
    } else if j < i {
        assert(share_path(recs[j], recs[i]));
    }
}

/// Records with one schema path are the same.
pub proof fn lemma_same_path(recs: Seq<Rec>, r: Rec, s: Rec)
    requires
        schemas_apart(recs),
        recs.contains(r),
        recs.contains(s),
        r.schema_path == s.schema_path,
    ensures
        r == s,
{
    let i = choose|i: int| 0 <= i < recs.len() && recs[i] == r;
    let j = choose|j: int| 0 <= j < recs.len() && recs[j] == s;
    if i < j {
        assert(recs[i].schema_path != recs[j].schema_path);
    } else if j < i {
        assert(recs[j].schema_path != recs[i].schema_path);
    }
}

/// Records that share no object path share no schema path.
pub proof fn lemma_schemas_apart(recs: Seq<Rec>)
    requires
        paths_apart(recs),
        regular(recs),
    ensures
        schemas_apart(recs),
{
    assert forall|i: int, j: int| 0 <= i < j < recs.len() implies (#[trigger] recs[i]).schema_path
        != (#[trigger] recs[j]).schema_path by {
        assert(recs[i].object_paths.contains(recs[i].schema_path));
        assert(recs[j].object_paths.contains(recs[j].schema_path));
        if recs[i].schema_path == recs[j].schema_path {
            assert(share_path(recs[i], recs[j]));
        }
    }
}

pub proof fn lemma_definition_pairs(
    recs: Seq<Rec>,
    x: (Seq<char>, Seq<(Seq<char>, Seq<char>)>),
)
    ensures
        index::definition_pairs(recs).contains(x) <==> exists|r: Rec| #[trigger]
            recs.contains(r) && r.schema_path == x.0 && r.schema == x.1,
{
    let pairs = index::definition_pairs(recs);
    if pairs.contains(x) {
        let i = choose|i: int| 0 <= i < pairs.len() && pairs[i] == x;
        assert(recs.contains(recs[i]));
    }
    if exists|r: Rec| #[trigger]
        recs.contains(r) && r.schema_path == x.0 && r.schema == x.1 {
        let r = choose|r: Rec| #[trigger]
            recs.contains(r) && r.schema_path == x.0 && r.schema == x.1;
        let i = choose|i: int| 0 <= i < recs.len() && recs[i] == r;
        assert(pairs[i] == x);
    }
}

pub proof fn lemma_path_pairs(recs: Seq<Rec>, x: (Seq<char>, Seq<char>))
    ensures
        index::path_pairs(recs).contains(x) <==> exists|r: Rec| #[trigger]
            recs.contains(r) && r.object_paths.contains(x.0) && r.schema_path == x.1,
    decreases recs.len(),
{
    if recs.len() > 0 {
        let d = recs.drop_last();
        let last = recs.last();
        lemma_path_pairs(d, x);
        same_records::lemma_concat_contains(
            index::path_pairs(d),
            index::paths_of(last),
            x,
        );
        assert(recs[recs.len() - 1] == last);
        assert(index::paths_of(last).contains(x) <==> last.object_paths.contains(x.0)
            && last.schema_path == x.1) by {
            let own = index::paths_of(last);
            if own.contains(x) {
                let i = choose|i: int| 0 <= i < own.len() && own[i] == x;
                assert(last.object_paths[i] == x.0);
            }
            if last.object_paths.contains(x.0) && last.schema_path == x.1 {
                let i = choose|i: int|
                    0 <= i < last.object_paths.len() && last.object_paths[i] == x.0;
                assert(own[i] == x);
            }
        }
        lemma_drop_last_contains(recs);
        if index::path_pairs(d).contains(x) {
            let r = choose|r: Rec| #[trigger]
                d.contains(r) && r.object_paths.contains(x.0) && r.schema_path == x.1;
            assert(recs.contains(r));
        }
        if index::paths_of(last).contains(x) {
            assert(recs.contains(last));
        }
        if exists|r: Rec| #[trigger]
            recs.contains(r) && r.object_paths.contains(x.0) && r.schema_path == x.1 {
            let r = choose|r: Rec| #[trigger]
                recs.contains(r) && r.object_paths.contains(x.0) && r.schema_path == x.1;
            assert(d.contains(r) || r == last);
        }
    }
}

proof fn lemma_drop_last_contains(recs: Seq<Rec>)
    requires
        recs.len() > 0,
    ensures
        forall|r: Rec| #[trigger] recs.contains(r) <==> recs.drop_last().contains(r) || r
            == recs.last(),
{
    let d = recs.drop_last();
    assert forall|r: Rec| #[trigger] recs.contains(r) <==> d.contains(r) || r == recs.last() by {
        if recs.contains(r) {
            let i = choose|i: int| 0 <= i < recs.len() && recs[i] == r;
            if i < d.len() {
                assert(d[i] == r);
            }
        }
        if d.contains(r) {
            let i = choose|i: int| 0 <= i < d.len() && d[i] == r;
            assert(recs[i] == r);
        }
        assert(recs[recs.len() - 1] == recs.last());
    }
}

pub proof fn lemma_ref_pairs(recs: Seq<Rec>, x: ((Seq<char>, Seq<nat>), Seq<char>))
    ensures
        index::ref_pairs(recs).contains(x) <==> exists|r: Rec| #[trigger]
            recs.contains(r) && r.array_parent == Some(x.0.0) && r.index_paths.contains(x.0.1)
                && r.schema_path == x.1,
    decreases recs.len(),
{
    if recs.len() > 0 {
        let d = recs.drop_last();
        let last = recs.last();
        lemma_ref_pairs(d, x);
        let own = index::refs_of(last);
        same_records::lemma_concat_contains(index::ref_pairs(d), own, x);
        assert(recs[recs.len() - 1] == last);
        assert(own.contains(x) <==> last.array_parent == Some(x.0.0) && last.index_paths.contains(
            x.0.1,
        ) && last.schema_path == x.1) by {
            if own.contains(x) {
                let i = choose|i: int| 0 <= i < own.len() && own[i] == x;
                assert(last.index_paths[i] == x.0.1);
            }
            if last.array_parent == Some(x.0.0) && last.index_paths.contains(x.0.1)
                && last.schema_path == x.1 {
                let i = choose|i: int|
                    0 <= i < last.index_paths.len() && last.index_paths[i] == x.0.1;
                assert(own[i] == x);
            }
        }
        lemma_drop_last_contains(recs);
        if index::ref_pairs(d).contains(x) {
            let r = choose|r: Rec| #[trigger]
                d.contains(r) && r.array_parent == Some(x.0.0) && r.index_paths.contains(x.0.1)
                    && r.schema_path == x.1;
            assert(recs.contains(r));
        }
        if own.contains(x) {
            assert(recs.contains(last));
        }
        if exists|r: Rec| #[trigger]
            recs.contains(r) && r.array_parent == Some(x.0.0) && r.index_paths.contains(x.0.1)
                && r.schema_path == x.1 {
            let r = choose|r: Rec| #[trigger]
                recs.contains(r) && r.array_parent == Some(x.0.0) && r.index_paths.contains(x.0.1)
                    && r.schema_path == x.1;
            assert(d.contains(r) || r == last);
        }
    }
}

pub proof fn lemma_type_pairs(recs: Seq<Rec>, x: ((Seq<char>, Seq<char>), Seq<char>))
    ensures
        streamed::type_pairs(recs).contains(x) <==> exists|r: Rec| #[trigger]
            recs.contains(r) && r.schema_path == x.0.0 && r.schema.contains((x.0.1, x.1)),
    decreases recs.len(),
{
    if recs.len() > 0 {
        let d = recs.drop_last();
        let last = recs.last();
        lemma_type_pairs(d, x);
        let own = streamed::types_of(last);
        same_records::lemma_concat_contains(streamed::type_pairs(d), own, x);
        assert(recs[recs.len() - 1] == last);
        assert(own.contains(x) <==> last.schema_path == x.0.0 && last.schema.contains(
            (x.0.1, x.1),
        )) by {
            if own.contains(x) {
                let i = choose|i: int| 0 <= i < own.len() && own[i] == x;
                assert(last.schema[i] == (x.0.1, x.1));
            }
            if last.schema_path == x.0.0 && last.schema.contains((x.0.1, x.1)) {
                let i = choose|i: int| 0 <= i < last.schema.len() && last.schema[i] == (x.0.1, x.1);
                assert(own[i] == x);
            }
        }
        lemma_drop_last_contains(recs);
        if streamed::type_pairs(d).contains(x) {
            let r = choose|r: Rec| #[trigger]
                d.contains(r) && r.schema_path == x.0.0 && r.schema.contains((x.0.1, x.1));
            assert(recs.contains(r));
        }
        if own.contains(x) {
            assert(recs.contains(last));
        }
        if exists|r: Rec| #[trigger]
            recs.contains(r) && r.schema_path == x.0.0 && r.schema.contains((x.0.1, x.1)) {
            let r = choose|r: Rec| #[trigger]
                recs.contains(r) && r.schema_path == x.0.0 && r.schema.contains((x.0.1, x.1));
            assert(d.contains(r) || r == last);
        }
    }
}

/// The same records give the same pairs.
pub proof fn lemma_same_pairs(a: Seq<Rec>, b: Seq<Rec>)
    requires
        same_records::same_elements(a, b),
    ensures
        same_records::same_elements(index::definition_pairs(a), index::definition_pairs(b)),
        same_records::same_elements(index::path_pairs(a), index::path_pairs(b)),
        same_records::same_elements(index::ref_pairs(a), index::ref_pairs(b)),
        same_records::same_elements(streamed::type_pairs(a), streamed::type_pairs(b)),
{
    assert forall|x: (Seq<char>, Seq<(Seq<char>, Seq<char>)>)| #[trigger]
        index::definition_pairs(a).contains(x) <==> index::definition_pairs(b).contains(x) by {
        lemma_definition_pairs(a, x);
        lemma_definition_pairs(b, x);
        if index::definition_pairs(a).contains(x) {
            let r = choose|r: Rec| #[trigger]
                a.contains(r) && r.schema_path == x.0 && r.schema == x.1;
            assert(b.contains(r));
        }
        if index::definition_pairs(b).contains(x) {
            let r = choose|r: Rec| #[trigger]
                b.contains(r) && r.schema_path == x.0 && r.schema == x.1;
            assert(a.contains(r));
        }
    }
    assert forall|x: (Seq<char>, Seq<char>)| #[trigger]
        index::path_pairs(a).contains(x) <==> index::path_pairs(b).contains(x) by {
        lemma_path_pairs(a, x);
        lemma_path_pairs(b, x);
        if index::path_pairs(a).contains(x) {
            let r = choose|r: Rec| #[trigger]
                a.contains(r) && r.object_paths.contains(x.0) && r.schema_path == x.1;
            assert(b.contains(r));
        }
        if index::path_pairs(b).contains(x) {
            let r = choose|r: Rec| #[trigger]
                b.contains(r) && r.object_paths.contains(x.0) && r.schema_path == x.1;
            assert(a.contains(r));
        }
    }
    assert forall|x: ((Seq<char>, Seq<nat>), Seq<char>)| #[trigger]
        index::ref_pairs(a).contains(x) <==> index::ref_pairs(b).contains(x) by {
        lemma_ref_pairs(a, x);
        lemma_ref_pairs(b, x);
        if index::ref_pairs(a).contains(x) {
            let r = choose|r: Rec| #[trigger]
                a.contains(r) && r.array_parent == Some(x.0.0) && r.index_paths.contains(x.0.1)
                    && r.schema_path == x.1;
            assert(b.contains(r));
        }
        if index::ref_pairs(b).contains(x) {
            let r = choose|r: Rec| #[trigger]
                b.contains(r) && r.array_parent == Some(x.0.0) && r.index_paths.contains(x.0.1)
                    && r.schema_path == x.1;
            assert(a.contains(r));
        }
    }
    assert forall|x: ((Seq<char>, Seq<char>), Seq<char>)| #[trigger]
        streamed::type_pairs(a).contains(x) <==> streamed::type_pairs(b).contains(x) by {
        lemma_type_pairs(a, x);
        lemma_type_pairs(b, x);
        if streamed::type_pairs(a).contains(x) {
            let r = choose|r: Rec| #[trigger]
                a.contains(r) && r.schema_path == x.0.0 && r.schema.contains((x.0.1, x.1));
            assert(b.contains(r));
        }
        if streamed::type_pairs(b).contains(x) {
            let r = choose|r: Rec| #[trigger]
                b.contains(r) && r.schema_path == x.0.0 && r.schema.contains((x.0.1, x.1));
            assert(a.contains(r));
        }
    }
}

/// Records with schema paths of their own give functional pairs.
pub proof fn lemma_functional_definitions(recs: Seq<Rec>)
    requires
        schemas_apart(recs),
    ensures
        functional(index::definition_pairs(recs)),
{
    assert forall|x: (Seq<char>, Seq<(Seq<char>, Seq<char>)>), y: (
        Seq<char>,
        Seq<(Seq<char>, Seq<char>)>,
    )|
        #![trigger index::definition_pairs(recs).contains(x), index::definition_pairs(recs).contains(y)]
        index::definition_pairs(recs).contains(x) && index::definition_pairs(recs).contains(y)
            && x.0 == y.0 implies x.1 == y.1 by {
        lemma_definition_pairs(recs, x);
        lemma_definition_pairs(recs, y);
        let r = choose|r: Rec| #[trigger]
            recs.contains(r) && r.schema_path == x.0 && r.schema == x.1;
        let s = choose|r: Rec| #[trigger]
            recs.contains(r) && r.schema_path == y.0 && r.schema == y.1;
        lemma_same_path(recs, r, s);
    }
}

/// Records with object paths of their own give functional pairs.
pub proof fn lemma_functional_paths(recs: Seq<Rec>)
    requires
        paths_apart(recs),
    ensures
        functional(index::path_pairs(recs)),
{
    assert forall|x: (Seq<char>, Seq<char>), y: (Seq<char>, Seq<char>)|
        #![trigger index::path_pairs(recs).contains(x), index::path_pairs(recs).contains(y)]
        index::path_pairs(recs).contains(x) && index::path_pairs(recs).contains(y) && x.0
            == y.0 implies x.1 == y.1 by {
        lemma_path_pairs(recs, x);
        lemma_path_pairs(recs, y);
        let r = choose|r: Rec| #[trigger]
            recs.contains(r) && r.object_paths.contains(x.0) && r.schema_path == x.1;
        let s = choose|r: Rec| #[trigger]
            recs.contains(r) && r.object_paths.contains(y.0) && r.schema_path == y.1;
        lemma_one_record(recs, r, s, x.0);
    }
}

/// Where a schema is kept, so is the label of each of its fields.
pub proof fn lemma_kept_label(recs: Seq<Rec>, p: Seq<char>, name: Seq<char>)
    requires
        regular(recs),
        index::last_wins(index::definition_pairs(recs)).contains_key(p),
        json::schema_names(index::last_wins(index::definition_pairs(recs))[p]).contains(name),
    ensures
        index::last_wins(streamed::type_pairs(recs)).contains_key((p, name)),
        index::label_in(index::last_wins(index::definition_pairs(recs))[p], name) == Some(
            index::last_wins(streamed::type_pairs(recs))[(p, name)],
        ),
    decreases recs.len(),
{
    if recs.len() > 0 {
        let d = recs.drop_last();
        let last = recs[recs.len() - 1];
        let own = streamed::types_of(last);
        assert(regular(d)) by {
            assert forall|i: int| 0 <= i < d.len() implies (
            #[trigger] d[i]).object_paths.contains(d[i].schema_path) && order::ascending(
                json::schema_names(d[i].schema),
            ) by {
                assert(d[i] == recs[i]);
            }
        }
        assert(index::definition_pairs(recs).drop_last() =~= index::definition_pairs(d));
        overrides::lemma_last_wins_concat(streamed::type_pairs(d), own, (p, name));
        stream::lemma_last_wins_under(own, (p, name));
        let u = order::under(own, (p, name));
        if last.schema_path == p {
            lemma_label_in(last.schema, name);
            let label = index::label_in(last.schema, name)->0;
            let i = choose|i: int| 0 <= i < last.schema.len() && last.schema[i] == (name, label);
            assert(own[i] == ((p, name), label));
            assert forall|j: int| 0 <= j < own.len() implies (i <= j < i + 1 <==> (
            #[trigger] own[j]).0 == (p, name)) by {
                let names = json::schema_names(last.schema);
                assert(order::ascending(names));
                if j < i {
                    order::lemma_before_excludes(names[j], names[i]);
                } else if i < j {
                    order::lemma_before_excludes(names[i], names[j]);
                }
            }
            order::lemma_under_range(own, (p, name), i, i + 1);
        } else {
            assert forall|j: int| 0 <= j < own.len() implies (#[trigger] own[j]).0 != (p, name) by {}
            order::lemma_under_none(own, (p, name));
            lemma_kept_label(d, p, name);
        }
    }
}

/// A label is found where the schema has the field.
pub proof fn lemma_label_in(schema: Seq<(Seq<char>, Seq<char>)>, name: Seq<char>)
    ensures
        index::label_in(schema, name) is Some <==> json::schema_names(schema).contains(name),
        index::label_in(schema, name) matches Some(l) ==> schema.contains((name, l)),
{
    order::lemma_under_nonempty(schema, name);
    assert(order::firsts(schema) =~= json::schema_names(schema));
    let u = order::under(schema, name);
    if u.len() > 0 {
        assert(u.contains(u[0]));
        same_records::lemma_under_contains(schema, name, u[0]);
    }
}

} // verus!
