//! What the log of a walk holds, in terms of the objects of the walk.

use crate::json;
use crate::json::Json;
use crate::label;
use crate::order;
use crate::path;
use crate::recorder;
use crate::records;
use crate::tables;
use crate::walk;
use crate::walk::{Occ, Role};
use vstd::prelude::*;

verus! {

/// The objects in fields at a path.
pub open spec fn objects_at(occs: Seq<Occ<Seq<char>>>, base: Seq<char>) -> Seq<
    Seq<(Seq<char>, Json)>,
> {
    order::under(records::place_pairs(walk::of_role(occs, Role::Object)), base)
}

/// The items with a role at a path: position and fields.
pub open spec fn items_at(occs: Seq<Occ<Seq<char>>>, role: Role, base: Seq<char>) -> Seq<
    (Seq<nat>, Seq<(Seq<char>, Json)>),
> {
    order::under(records::place_items(walk::of_role(occs, role)), base)
}

pub open spec fn all_tidy<P>(occs: Seq<Occ<P>>) -> bool {
    forall|i: int| 0 <= i < occs.len() ==> json::tidy_fields((#[trigger] occs[i]).fields)
}

proof fn lemma_all_tidy_prefix<P>(occs: Seq<Occ<P>>)
    requires
        all_tidy(occs),
        occs.len() > 0,
    ensures
        all_tidy(occs.drop_last()),
        json::tidy_fields(occs.last().fields),
{
    let d = occs.drop_last();
    assert forall|i: int| 0 <= i < d.len() implies json::tidy_fields((#[trigger] d[i]).fields) by {
        assert(json::tidy_fields(occs[i].fields));
    }
    assert(json::tidy_fields(occs[occs.len() - 1].fields));
}

pub proof fn lemma_objects_at_last(occs: Seq<Occ<Seq<char>>>, base: Seq<char>)
    requires
        occs.len() > 0,
    ensures
        objects_at(occs, base) == if occs.last().role == Role::Object && occs.last().at == base {
            objects_at(occs.drop_last(), base).push(occs.last().fields)
        } else {
            objects_at(occs.drop_last(), base)
        },
{
    let d = occs.drop_last();
    let kept = walk::of_role(d, Role::Object);
    let whole = walk::of_role(occs, Role::Object);
    if occs.last().role == Role::Object {
        assert(whole == kept.push(occs.last()));
        assert(records::place_pairs(whole).drop_last() =~= records::place_pairs(kept));
        assert(records::place_pairs(whole).last() == (occs.last().at, occs.last().fields));
    }
}

pub proof fn lemma_items_at_last(occs: Seq<Occ<Seq<char>>>, role: Role, base: Seq<char>)
    requires
        occs.len() > 0,
    ensures
        items_at(occs, role, base) == if occs.last().role == role && occs.last().at == base {
            items_at(occs.drop_last(), role, base).push(
                (occs.last().indexes, occs.last().fields),
            )
        } else {
            items_at(occs.drop_last(), role, base)
        },
{
    let d = occs.drop_last();
    let kept = walk::of_role(d, role);
    let whole = walk::of_role(occs, role);
    if occs.last().role == role {
        assert(whole == kept.push(occs.last()));
        assert(records::place_items(whole).drop_last() =~= records::place_items(kept));
        assert(records::place_items(whole).last() == (
            occs.last().at,
            (occs.last().indexes, occs.last().fields),
        ));
    }
}

/// Objects are logged once each.
pub proof fn lemma_log_objects(occs: Seq<Occ<Seq<char>>>, base: Seq<char>)
    ensures
        order::under(recorder::log_of(occs).objects, base).len() == objects_at(occs, base).len(),
    decreases occs.len(),
{
    if occs.len() > 0 {
        let d = occs.drop_last();
        let o = occs.last();
        lemma_log_objects(d, base);
        lemma_objects_at_last(occs, base);
        let own = recorder::own_log(o).objects;
        order::lemma_under_concat(recorder::log_of(d).objects, own, base);
        if o.role == Role::Object {
            assert(own =~= seq![(o.at, ())]);
            assert(own.drop_last() =~= Seq::empty());
            reveal_with_fuel(order::under, 2);
        }
    }
}

/// What one object adds under a field.
proof fn lemma_fields_values(
    at: Seq<char>,
    fields: Seq<(Seq<char>, Json)>,
    base: Seq<char>,
    name: Seq<char>,
)
    requires
        order::ascending(json::names(fields)),
    ensures
        order::under(recorder::fields_values(at, fields), (base, name)) == if at == base {
            match json::lookup(fields, name) {
                Some(v) => seq![v],
                None => Seq::empty(),
            }
        } else {
            Seq::empty()
        },
{
    let pairs = recorder::fields_values(at, fields);
    json::lemma_lookup_some(fields, name);
    if at == base && json::names(fields).contains(name) {
        let i = choose|i: int| 0 <= i < fields.len() && json::names(fields)[i] == name;
        json::lemma_lookup_at(fields, i);
        assert forall|j: int| 0 <= j < pairs.len() implies (i <= j < i + 1 <==> (
        #[trigger] pairs[j]).0 == (base, name)) by {
            if j < i {
                order::lemma_before_excludes(json::names(fields)[j], json::names(fields)[i]);
            } else if i < j {
                order::lemma_before_excludes(json::names(fields)[i], json::names(fields)[j]);
            }
        }
        order::lemma_under_range(pairs, (base, name), i, i + 1);
        assert(order::under(pairs, (base, name)) =~= seq![fields[i].1]);
    } else {
        assert forall|j: int| 0 <= j < pairs.len() implies (#[trigger] pairs[j]).0 != (
            base,
            name,
        ) by {
            assert(json::names(fields)[j] == fields[j].0);
        }
        order::lemma_under_none(pairs, (base, name));
    }
}

/// The values of a field are logged in the order of the objects.
pub proof fn lemma_log_fields(occs: Seq<Occ<Seq<char>>>, base: Seq<char>, name: Seq<char>)
    requires
        all_tidy(occs),
    ensures
        order::under(recorder::log_of(occs).fields, (base, name)) == label::values_of(
            objects_at(occs, base),
            name,
        ),
    decreases occs.len(),
{
    let k = (base, name);
    if occs.len() == 0 {
        assert(records::place_pairs(walk::of_role(occs, Role::Object)) =~= Seq::empty());
        assert(objects_at(occs, base) =~= Seq::empty());
    } else {
        let d = occs.drop_last();
        let o = occs.last();
        lemma_all_tidy_prefix(occs);
        lemma_log_fields(d, base, name);
        lemma_objects_at_last(occs, base);
        let own = recorder::own_log(o).fields;
        order::lemma_under_concat(recorder::log_of(d).fields, own, k);
        let before = order::under(recorder::log_of(d).fields, k);
        if o.role == Role::Object {
            lemma_fields_values(o.at, o.fields, base, name);
            if o.at == base {
                assert(objects_at(occs, base).drop_last() =~= objects_at(d, base));
                match json::lookup(o.fields, name) {
                    Some(v) => {
                        assert(before + seq![v] =~= before.push(v));
                    },
                    None => {
                        assert(before + Seq::<Json>::empty() =~= before);
                    },
                }
            } else {
                assert(before + Seq::<Json>::empty() =~= before);
            }
        } else {
            assert(own =~= Seq::empty());
            assert(order::under(own, k) =~= Seq::empty());
            assert(before + Seq::<Json>::empty() =~= before);
        }
    }
}

/// The members at a depth below `values`.
pub open spec fn level(values: Seq<Json>, depth: nat) -> Seq<Json>
    decreases depth,
{
    if depth == 0 {
        values
    } else {
        level(label::members(values), (depth - 1) as nat)
    }
}

pub proof fn lemma_members_concat(a: Seq<Json>, b: Seq<Json>)
    ensures
        label::members(a + b) == label::members(a) + label::members(b),
    decreases b.len(),
{
    if b.len() == 0 {
        assert(a + b =~= a);
        assert(label::members(a) + Seq::<Json>::empty() =~= label::members(a));
    } else {
        lemma_members_concat(a, b.drop_last());
        assert((a + b).drop_last() =~= a + b.drop_last());
        assert((a + b).last() == b.last());
        assert(label::members(a + b) =~= label::members(a) + label::members(b));
    }
}

pub proof fn lemma_level_concat(a: Seq<Json>, b: Seq<Json>, depth: nat)
    ensures
        level(a + b, depth) == level(a, depth) + level(b, depth),
    decreases depth,
{
    if depth > 0 {
        lemma_members_concat(a, b);
        lemma_level_concat(label::members(a), label::members(b), (depth - 1) as nat);
    }
}

proof fn lemma_level_empty(depth: nat)
    ensures
        level(Seq::empty(), depth) == Seq::<Json>::empty(),
    decreases depth,
{
    if depth > 0 {
        lemma_level_empty((depth - 1) as nat);
    }
}

/// One level further down.
pub proof fn lemma_level_next(values: Seq<Json>, depth: nat)
    ensures
        level(values, depth + 1) == label::members(level(values, depth)),
    decreases depth,
{
    if depth > 0 {
        lemma_level_next(label::members(values), (depth - 1) as nat);
    } else {
        reveal_with_fuel(level, 2);
    }
}

/// The logged members of an array, level by level.
proof fn lemma_members_log(base: Seq<char>, items: Seq<Json>, start: nat, k: (Seq<char>, nat))
    ensures
        order::under(recorder::members_log(base, items, start), k) == if k.0 == base && k.1
            >= start {
            level(items, (k.1 - start) as nat)
        } else {
            Seq::empty()
        },
        forall|i: int|
            0 <= i < recorder::members_log(base, items, start).len() ==> (
            #[trigger] recorder::members_log(base, items, start)[i]).0.1 < start
                + recorder::members_log(base, items, start).len(),
    decreases items,
{
    let whole = recorder::members_log(base, items, start);
    if items.len() == 0 {
        if k.1 >= start {
            lemma_level_empty((k.1 - start) as nat);
            assert(items =~= Seq::empty());
        }
    } else {
        let d = items.drop_last();
        let last = items.last();
        let a = recorder::members_log(base, d, start);
        let m = seq![((base, start), last)];
        let c: Seq<((Seq<char>, nat), Json)> = match last {
            Json::Array(nested) => recorder::members_log(base, nested, start + 1),
            _ => Seq::empty(),
        };
        assert(whole == a + m + c);
        lemma_members_log(base, d, start, k);
        if let Json::Array(nested) = last {
            lemma_members_log(base, nested, start + 1, k);
        }
        order::lemma_under_concat(a + m, c, k);
        order::lemma_under_concat(a, m, k);
        assert(m.drop_last() =~= Seq::empty());
        assert(order::under(m, k) == if k == (base, start) {
            seq![last]
        } else {
            Seq::empty()
        }) by {
            reveal_with_fuel(order::under, 2);
            assert(Seq::<Json>::empty().push(last) =~= seq![last]);
        }
        assert(order::under(Seq::<((Seq<char>, nat), Json)>::empty(), k) =~= Seq::<Json>::empty());
        if k.0 == base && k.1 >= start {
            let depth = (k.1 - start) as nat;
            assert(items =~= d + seq![last]);
            lemma_level_concat(d, seq![last], depth);
            if depth == 0 {
                assert(order::under(whole, k) =~= items);
            } else {
                assert(seq![last].drop_last() =~= Seq::empty());
                reveal_with_fuel(label::members, 2);
                if let Json::Array(nested) = last {
                    assert(label::members(seq![last]) =~= nested);
                } else {
                    assert(label::members(seq![last]) =~= Seq::empty());
                    lemma_level_empty((depth - 1) as nat);
                }
                assert(order::under(whole, k) =~= level(items, depth));
            }
        } else {
            assert(order::under(whole, k) =~= Seq::empty());
        }
        assert forall|i: int| 0 <= i < whole.len() implies (#[trigger] whole[i]).0.1 < start
            + whole.len() by {
            if i < a.len() {
                assert(whole[i] == a[i]);
            } else if i == a.len() {
            } else {
                assert(whole[i] == c[i - a.len() - 1]);
            }
        }
    }
}

/// What one object adds to the members at a path below it.
proof fn lemma_fields_members(
    at: Seq<char>,
    fields: Seq<(Seq<char>, Json)>,
    base: Seq<char>,
    name: Seq<char>,
    depth: nat,
)
    requires
        order::ascending(json::names(fields)),
    ensures
        order::under(
            recorder::fields_members(at, fields),
            (path::child(base, name), depth),
        ) == if at == base {
            match json::lookup(fields, name) {
                Some(Json::Array(items)) => level(items, depth),
                _ => Seq::empty(),
            }
        } else {
            Seq::empty()
        },
        forall|i: int|
            0 <= i < recorder::fields_members(at, fields).len() ==> (
            #[trigger] recorder::fields_members(at, fields)[i]).0.1 < recorder::fields_members(
                at,
                fields,
            ).len(),
    decreases fields.len(),
{
    let k = (path::child(base, name), depth);
    let whole = recorder::fields_members(at, fields);
    if fields.len() > 0 {
        let d = fields.drop_last();
        let key = fields.last().0;
        let n = fields.len() - 1;
        let a = recorder::fields_members(at, d);
        let c: Seq<((Seq<char>, nat), Json)> = match fields.last().1 {
            Json::Array(items) => recorder::members_log(path::child(at, key), items, 0),
            _ => Seq::empty(),
        };
        assert(whole == a + c);
        assert forall|i: int, j: int| 0 <= i < j < d.len() implies order::Ordered::before(
            #[trigger] json::names(d)[i],
            #[trigger] json::names(d)[j],
        ) by {
            assert(json::names(fields)[i] == json::names(d)[i]);
            assert(json::names(fields)[j] == json::names(d)[j]);
        }
        lemma_fields_members(at, d, base, name, depth);
        order::lemma_under_concat(a, c, k);
        if let Json::Array(items) = fields.last().1 {
            lemma_members_log(path::child(at, key), items, 0, k);
        }
        if path::child(at, key) == path::child(base, name) {
            path::lemma_child_injective(at, base, key, name);
        }
        json::lemma_lookup_some(fields, name);
        json::lemma_lookup_some(d, name);
        json::lemma_lookup_at(fields, n);
        if at == base {
            if key == name {
                if json::names(d).contains(name) {
                    let i = choose|i: int| 0 <= i < d.len() && json::names(d)[i] == name;
                    assert(json::names(fields)[i] == name);
                    order::lemma_before_excludes(json::names(fields)[i], json::names(fields)[n]);
                }
                assert(json::lookup(fields, name) == Some(fields[n].1));
            } else {
                lemma_lookup_prefix(fields, name);
            }
        }
        assert(order::under(whole, k) =~= if at == base {
            match json::lookup(fields, name) {
                Some(Json::Array(items)) => level(items, depth),
                _ => Seq::empty(),
            }
        } else {
            Seq::empty()
        });
        assert forall|i: int| 0 <= i < whole.len() implies (#[trigger] whole[i]).0.1
            < whole.len() by {
            if i < a.len() {
                assert(whole[i] == a[i]);
            } else {
                assert(whole[i] == c[i - a.len()]);
            }
        }
    }
}

proof fn lemma_lookup_prefix(fields: Seq<(Seq<char>, Json)>, name: Seq<char>)
    requires
        fields.len() > 0,
        fields.last().0 != name,
    ensures
        json::lookup(fields, name) == json::lookup(fields.drop_last(), name),
    decreases fields.len(),
{
    if fields.len() > 1 && fields[0].0 != name {
        lemma_lookup_prefix(fields.drop_first(), name);
        assert(fields.drop_first().drop_last() =~= fields.drop_last().drop_first());
        assert(fields.drop_first().last() == fields.last());
    } else if fields.len() == 1 {
        reveal_with_fuel(json::lookup, 2);
    }
}

/// The logged members at a path below an object path are the levels of the arrays there.
pub proof fn lemma_log_members(
    occs: Seq<Occ<Seq<char>>>,
    base: Seq<char>,
    name: Seq<char>,
    depth: nat,
)
    requires
        all_tidy(occs),
    ensures
        order::under(recorder::log_of(occs).members, (path::child(base, name), depth)) == level(
            label::members(label::values_of(objects_at(occs, base), name)),
            depth,
        ),
        forall|i: int|
            0 <= i < recorder::log_of(occs).members.len() ==> (#[trigger] recorder::log_of(
                occs,
            ).members[i]).0.1 < recorder::log_of(occs).members.len(),
    decreases occs.len(),
{
    let k = (path::child(base, name), depth);
    if occs.len() == 0 {
        assert(records::place_pairs(walk::of_role(occs, Role::Object)) =~= Seq::empty());
        assert(objects_at(occs, base) =~= Seq::empty());
        lemma_level_empty(depth);
    } else {
        let d = occs.drop_last();
        let o = occs.last();
        lemma_all_tidy_prefix(occs);
        lemma_log_members(d, base, name, depth);
        lemma_objects_at_last(occs, base);
        let own = recorder::own_log(o).members;
        let a = recorder::log_of(d).members;
        let whole = recorder::log_of(occs).members;
        assert(whole == a + own);
        order::lemma_under_concat(a, own, k);
        let before = label::values_of(objects_at(d, base), name);
        if o.role == Role::Object {
            lemma_fields_members(o.at, o.fields, base, name, depth);
            if o.at == base {
                assert(objects_at(occs, base).drop_last() =~= objects_at(d, base));
                match json::lookup(o.fields, name) {
                    Some(v) => {
                        let after = before.push(v);
                        assert(after.drop_last() =~= before);
                        if let Json::Array(items) = v {
                            lemma_level_concat(label::members(before), items, depth);
                        } else {
                            assert(order::under(a, k) + Seq::<Json>::empty() =~= order::under(
                                a,
                                k,
                            ));
                        }
                    },
                    None => {
                        assert(order::under(a, k) + Seq::<Json>::empty() =~= order::under(a, k));
                    },
                }
            } else {
                assert(order::under(a, k) + Seq::<Json>::empty() =~= order::under(a, k));
            }
        } else {
            assert(own =~= Seq::empty());
            assert(order::under(own, k) =~= Seq::empty());
            assert(order::under(a, k) + Seq::<Json>::empty() =~= order::under(a, k));
        }
        assert forall|i: int| 0 <= i < whole.len() implies (#[trigger] whole[i]).0.1
            < whole.len() by {
            if i < a.len() {
                assert(whole[i] == a[i]);
            } else {
                assert(whole[i] == own[i - a.len()]);
            }
        }
    }
}

/// The positions of items with the canonical texts of their schemas.
pub open spec fn item_marks(prefix: Seq<char>, items: Seq<(Seq<nat>, Seq<(Seq<char>, Json)>)>) -> Seq<
    (Seq<nat>, Seq<char>),
> {
    Seq::new(items.len(), |i: int| (items[i].0, records::item_rows(prefix, items)[i].0))
}

proof fn lemma_item_rows_push(
    prefix: Seq<char>,
    items: Seq<(Seq<nat>, Seq<(Seq<char>, Json)>)>,
    item: (Seq<nat>, Seq<(Seq<char>, Json)>),
)
    ensures
        records::item_rows(prefix, items.push(item)).drop_last() == records::item_rows(
            prefix,
            items,
        ),
        item_marks(prefix, items.push(item)).drop_last() == item_marks(prefix, items),
        records::item_rows(prefix, items.push(item)).last() == (
            json::compact_json(label::schema_of(prefix, seq![item.1])),
            label::schema_of(prefix, seq![item.1]),
        ),
        item_marks(prefix, items.push(item)).last() == (
            item.0,
            json::compact_json(label::schema_of(prefix, seq![item.1])),
        ),
{
    assert(records::item_rows(prefix, items.push(item)).drop_last() =~= records::item_rows(
        prefix,
        items,
    ));
    assert(item_marks(prefix, items.push(item)).drop_last() =~= item_marks(prefix, items));
}

pub proof fn lemma_under_one<K, T>(pair: (K, T), k: K)
    ensures
        order::under(seq![pair], k) == if pair.0 == k {
            seq![pair.1]
        } else {
            Seq::<T>::empty()
        },
{
    assert(seq![pair].drop_last() =~= Seq::empty());
    reveal_with_fuel(order::under, 2);
    assert(order::under(seq![pair], k) =~= if pair.0 == k {
        seq![pair.1]
    } else {
        Seq::<T>::empty()
    });
}

/// The schemas of items are logged in their order.
pub proof fn lemma_log_items(
    occs: Seq<Occ<Seq<char>>>,
    role: Role,
    base: Seq<char>,
    canon: Seq<char>,
)
    requires
        role != Role::Object,
    ensures
        order::under(
            recorder::log_of(occs).items,
            ((tables::role_rank(role), base), canon),
        ) == order::under(
            records::item_rows(base + "/"@, items_at(occs, role, base)),
            canon,
        ),
    decreases occs.len(),
{
    let k = ((tables::role_rank(role), base), canon);
    let prefix = base + "/"@;
    if occs.len() == 0 {
        assert(records::place_items(walk::of_role(occs, role)) =~= Seq::empty());
        assert(items_at(occs, role, base) =~= Seq::empty());
        assert(records::item_rows(prefix, items_at(occs, role, base)) =~= Seq::empty());
    } else {
        let d = occs.drop_last();
        let o = occs.last();
        lemma_log_items(d, role, base, canon);
        lemma_items_at_last(occs, role, base);
        let own = recorder::own_log(o).items;
        let a = recorder::log_of(d).items;
        order::lemma_under_concat(a, own, k);
        let so_far = order::under(a, k);
        assert(so_far + Seq::<Seq<(Seq<char>, Seq<char>)>>::empty() =~= so_far);
        if o.role == Role::Object {
            assert(own =~= Seq::empty());
            assert(order::under(own, k) =~= Seq::empty());
        } else {
            let schema = recorder::item_schema(o.at, o.fields);
            let pair = (
                ((tables::role_rank(o.role), o.at), json::compact_json(schema)),
                schema,
            );
            assert(own =~= seq![pair]);
            lemma_under_one(pair, k);
            if o.role == role && o.at == base {
                lemma_item_rows_push(prefix, items_at(d, role, base), (o.indexes, o.fields));
                assert(so_far + seq![schema] =~= so_far.push(schema));
            } else {
                assert(tables::role_rank(o.role) != tables::role_rank(role) || o.at != base);
            }
        }
    }
}

/// The positions of items are logged in their order.
pub proof fn lemma_log_refs(
    occs: Seq<Occ<Seq<char>>>,
    role: Role,
    base: Seq<char>,
    index: Seq<nat>,
)
    requires
        role != Role::Object,
    ensures
        order::under(
            recorder::log_of(occs).refs,
            ((tables::role_rank(role), base), index),
        ) == order::under(item_marks(base + "/"@, items_at(occs, role, base)), index),
    decreases occs.len(),
{
    let k = ((tables::role_rank(role), base), index);
    let prefix = base + "/"@;
    if occs.len() == 0 {
        assert(records::place_items(walk::of_role(occs, role)) =~= Seq::empty());
        assert(items_at(occs, role, base) =~= Seq::empty());
        assert(item_marks(prefix, items_at(occs, role, base)) =~= Seq::empty());
    } else {
        let d = occs.drop_last();
        let o = occs.last();
        lemma_log_refs(d, role, base, index);
        lemma_items_at_last(occs, role, base);
        let own = recorder::own_log(o).refs;
        let a = recorder::log_of(d).refs;
        order::lemma_under_concat(a, own, k);
        let so_far = order::under(a, k);
        assert(so_far + Seq::<Seq<char>>::empty() =~= so_far);
        if o.role == Role::Object {
            assert(own =~= Seq::empty());
            assert(order::under(own, k) =~= Seq::empty());
        } else {
            let canon = json::compact_json(recorder::item_schema(o.at, o.fields));
            let pair = (((tables::role_rank(o.role), o.at), o.indexes), canon);
            assert(own =~= seq![pair]);
            lemma_under_one(pair, k);
            if o.role == role && o.at == base {
                lemma_item_rows_push(prefix, items_at(d, role, base), (o.indexes, o.fields));
                assert(so_far + seq![canon] =~= so_far.push(canon));
            } else {
                assert(tables::role_rank(o.role) != tables::role_rank(role) || o.at != base);
            }
        }
    }
}

} // verus!
