//! What holds of walks: every object is met, at its place and with its positions.

use crate::json;
use crate::json::Json;
use crate::same_records;
use crate::walk;
use crate::walk::{Occ, Role};
use vstd::prelude::*;

verus! {

/// One step into a value: to a field by its name, or to an item by its position.
pub ghost enum Step {
    Field(Seq<char>),
    Item(nat),
}

/// The value that steps lead to.
pub open spec fn reached(v: Json, steps: Seq<Step>) -> Option<Json>
    decreases steps.len(),
{
    if steps.len() == 0 {
        Some(v)
    } else {
        match (v, steps[0]) {
            (Json::Object(fields), Step::Field(name)) => match json::lookup(fields, name) {
                Some(x) => reached(x, steps.drop_first()),
                None => None,
            },
            (Json::Array(items), Step::Item(i)) => if i < items.len() {
                reached(items[i as int], steps.drop_first())
            } else {
                None
            },
            _ => None,
        }
    }
}

/// The names of the fields on the way.
pub open spec fn fields_passed(steps: Seq<Step>) -> Seq<Seq<char>>
    decreases steps.len(),
{
    if steps.len() == 0 {
        Seq::empty()
    } else {
        match steps[0] {
            Step::Field(name) => seq![name] + fields_passed(steps.drop_first()),
            Step::Item(_) => fields_passed(steps.drop_first()),
        }
    }
}

/// The positions on the way.
pub open spec fn positions_passed(steps: Seq<Step>) -> Seq<nat>
    decreases steps.len(),
{
    if steps.len() == 0 {
        Seq::empty()
    } else {
        match steps[0] {
            Step::Field(_) => positions_passed(steps.drop_first()),
            Step::Item(i) => seq![i] + positions_passed(steps.drop_first()),
        }
    }
}

/// What an object is where steps end: `role` if there are none.
pub open spec fn role_after(steps: Seq<Step>, role: Role) -> Role {
    if steps.len() == 0 {
        role
    } else {
        match steps.last() {
            Step::Field(_) => Role::Object,
            Step::Item(_) => Role::ArrayItem,
        }
    }
}

/// Every object in an object is met on its walk: at the fields on the way to it, with the
/// positions on the way, as an item if the last step was to one.
pub proof fn law_every_object_is_met(
    at: Seq<Seq<char>>,
    fields: Seq<(Seq<char>, Json)>,
    role: Role,
    indexes: Seq<nat>,
    steps: Seq<Step>,
    found: Seq<(Seq<char>, Json)>,
)
    requires
        reached(Json::Object(fields), steps) == Some(Json::Object(found)),
    ensures
        walk::walk_object(at, walk::by_keys(), fields, role, indexes).contains(
            Occ {
                at: at + fields_passed(steps),
                fields: found,
                role: role_after(steps, role),
                indexes: indexes + positions_passed(steps),
            },
        ),
{
    let occs = walk::walk_object(at, walk::by_keys(), fields, role, indexes);
    let rest = walk::walk_fields(at, walk::by_keys(), fields, indexes);
    let o = Occ {
        at: at + fields_passed(steps),
        fields: found,
        role: role_after(steps, role),
        indexes: indexes + positions_passed(steps),
    };
    if steps.len() == 0 {
        assert(at + fields_passed(steps) =~= at);
        assert(indexes + positions_passed(steps) =~= indexes);
        assert(occs[0] == o);
    } else {
        lemma_met_in_fields(at, fields, indexes, steps, found);
        same_records::lemma_concat_contains(
            seq![Occ { at, fields, role, indexes }],
            rest,
            o,
        );
    }
}

proof fn lemma_found(fields: Seq<(Seq<char>, Json)>, key: Seq<char>) -> (i: int)
    requires
        json::lookup(fields, key) is Some,
    ensures
        0 <= i < fields.len(),
        fields[i] == (key, json::lookup(fields, key)->0),
    decreases fields.len(),
{
    if fields[0].0 == key {
        0
    } else {
        let i = lemma_found(fields.drop_first(), key);
        i + 1
    }
}

proof fn lemma_in_fields(
    at: Seq<Seq<char>>,
    fields: Seq<(Seq<char>, Json)>,
    indexes: Seq<nat>,
    i: int,
    o: Occ<Seq<Seq<char>>>,
)
    requires
        0 <= i < fields.len(),
        walk::walk_child(at.push(fields[i].0), walk::by_keys(), fields[i].1, indexes).contains(o),
    ensures
        walk::walk_fields(at, walk::by_keys(), fields, indexes).contains(o),
    decreases fields.len(),
{
    let d = fields.drop_last();
    let n = fields.len() - 1;
    same_records::lemma_concat_contains(
        walk::walk_fields(at, walk::by_keys(), d, indexes),
        walk::walk_child(at.push(fields[n].0), walk::by_keys(), fields[n].1, indexes),
        o,
    );
    if i < n {
        assert(d[i] == fields[i]);
        lemma_in_fields(at, d, indexes, i, o);
    }
}

proof fn lemma_in_items(
    at: Seq<Seq<char>>,
    items: Seq<Json>,
    indexes: Seq<nat>,
    i: int,
    o: Occ<Seq<Seq<char>>>,
)
    requires
        0 <= i < items.len(),
        walk::walk_item(at, walk::by_keys(), items[i], indexes.push(i as nat)).contains(o),
    ensures
        walk::walk_items(at, walk::by_keys(), items, indexes).contains(o),
    decreases items.len(),
{
    let d = items.drop_last();
    let n = items.len() - 1;
    same_records::lemma_concat_contains(
        walk::walk_items(at, walk::by_keys(), d, indexes),
        walk::walk_item(at, walk::by_keys(), items[n], indexes.push(n as nat)),
        o,
    );
    if i < n {
        assert(d[i] == items[i]);
        lemma_in_items(at, d, indexes, i, o);
    }
}

proof fn lemma_met_in_fields(
    at: Seq<Seq<char>>,
    fields: Seq<(Seq<char>, Json)>,
    indexes: Seq<nat>,
    steps: Seq<Step>,
    found: Seq<(Seq<char>, Json)>,
)
    requires
        steps.len() > 0,
        reached(Json::Object(fields), steps) == Some(Json::Object(found)),
    ensures
        walk::walk_fields(at, walk::by_keys(), fields, indexes).contains(
            Occ {
                at: at + fields_passed(steps),
                fields: found,
                role: role_after(steps, Role::Object),
                indexes: indexes + positions_passed(steps),
            },
        ),
    decreases steps.len(), 0int,
{
    let rest = steps.drop_first();
    let name = steps[0]->Field_0;
    let i = lemma_found(fields, name);
    let o = Occ {
        at: at + fields_passed(steps),
        fields: found,
        role: role_after(steps, Role::Object),
        indexes: indexes + positions_passed(steps),
    };
    lemma_met(at.push(name), fields[i].1, indexes, rest, found, false);
    assert(at.push(name) + fields_passed(rest) =~= at + fields_passed(steps));
    assert(rest.len() > 0 ==> rest.last() == steps.last());
    lemma_in_fields(at, fields, indexes, i, o);
}

proof fn lemma_met(
    at: Seq<Seq<char>>,
    v: Json,
    indexes: Seq<nat>,
    steps: Seq<Step>,
    found: Seq<(Seq<char>, Json)>,
    item: bool,
)
    requires
        reached(v, steps) == Some(Json::Object(found)),
    ensures
        ({
            let occs = if item {
                walk::walk_item(at, walk::by_keys(), v, indexes)
            } else {
                walk::walk_child(at, walk::by_keys(), v, indexes)
            };
            occs.contains(
                Occ {
                    at: at + fields_passed(steps),
                    fields: found,
                    role: role_after(
                        steps,
                        if item {
                            Role::ArrayItem
                        } else {
                            Role::Object
                        },
                    ),
                    indexes: indexes + positions_passed(steps),
                },
            )
        }),
    decreases steps.len(), 1int,
{
    let role = if item {
        Role::ArrayItem
    } else {
        Role::Object
    };
    let o = Occ {
        at: at + fields_passed(steps),
        fields: found,
        role: role_after(steps, role),
        indexes: indexes + positions_passed(steps),
    };
    walk::lemma_walk_child(at, walk::by_keys(), v, indexes);
    walk::lemma_walk_item(at, walk::by_keys(), v, indexes);
    match v {
        Json::Object(fields) => {
            let own = Occ { at, fields, role, indexes };
            let inner = walk::walk_fields(at, walk::by_keys(), fields, indexes);
            if steps.len() == 0 {
                assert(at + fields_passed(steps) =~= at);
                assert(indexes + positions_passed(steps) =~= indexes);
                assert((seq![own] + inner)[0] == o);
            } else {
                lemma_met_in_fields(at, fields, indexes, steps, found);
                same_records::lemma_concat_contains(seq![own], inner, o);
            }
        },
        Json::Array(items) => {
            let rest = steps.drop_first();
            let i = steps[0]->Item_0;
            lemma_met(at, items[i as int], indexes.push(i), rest, found, true);
            assert(indexes.push(i) + positions_passed(rest) =~= indexes + positions_passed(steps));
            assert(rest.len() > 0 ==> rest.last() == steps.last());
            lemma_in_items(at, items, indexes, i as int, o);
        },
        _ => {},
    }
}

/// How many objects a value holds, itself counted if it is one.
pub open spec fn objects_within(v: Json) -> nat
    decreases v,
{
    match v {
        Json::Object(fields) => 1 + objects_in_fields(fields),
        Json::Array(items) => objects_in_items(items),
        _ => 0,
    }
}

pub open spec fn objects_in_fields(fields: Seq<(Seq<char>, Json)>) -> nat
    decreases fields,
{
    if fields.len() == 0 {
        0
    } else {
        objects_in_fields(fields.drop_last()) + objects_within(fields.last().1)
    }
}

pub open spec fn objects_in_items(items: Seq<Json>) -> nat
    decreases items,
{
    if items.len() == 0 {
        0
    } else {
        objects_in_items(items.drop_last()) + objects_within(items.last())
    }
}

/// A walk meets each object once: it is as long as there are objects, and the outermost comes
/// first, as it was given.
pub proof fn law_walks_meet_objects_once<P>(
    at: P,
    below: spec_fn(P, Seq<char>) -> P,
    fields: Seq<(Seq<char>, Json)>,
    role: Role,
    indexes: Seq<nat>,
)
    ensures
        walk::walk_object(at, below, fields, role, indexes).len() == objects_within(
            Json::Object(fields),
        ),
        walk::walk_object(at, below, fields, role, indexes)[0] == (Occ {
            at,
            fields,
            role,
            indexes,
        }),
{
    lemma_fields_number(at, below, fields, indexes);
}

proof fn lemma_fields_number<P>(
    at: P,
    below: spec_fn(P, Seq<char>) -> P,
    fields: Seq<(Seq<char>, Json)>,
    indexes: Seq<nat>,
)
    ensures
        walk::walk_fields(at, below, fields, indexes).len() == objects_in_fields(fields),
    decreases fields, 0int,
{
    if fields.len() > 0 {
        let d = fields.drop_last();
        let (key, child) = fields.last();
        let there = below(at, key);
        lemma_fields_number(at, below, d, indexes);
        walk::lemma_walk_child(there, below, child, indexes);
        assert(objects_within(child) == match child {
            Json::Object(inside) => 1 + objects_in_fields(inside),
            Json::Array(items) => objects_in_items(items),
            _ => 0,
        });
        match child {
            Json::Object(inside) => {
                lemma_fields_number(there, below, inside, indexes);
            },
            Json::Array(items) => {
                lemma_items_number(there, below, items, indexes);
            },
            _ => {},
        }
    }
}

proof fn lemma_items_number<P>(
    at: P,
    below: spec_fn(P, Seq<char>) -> P,
    items: Seq<Json>,
    indexes: Seq<nat>,
)
    ensures
        walk::walk_items(at, below, items, indexes).len() == objects_in_items(items),
    decreases items, 0int,
{
    if items.len() > 0 {
        let d = items.drop_last();
        let inner = indexes.push((items.len() - 1) as nat);
        lemma_items_number(at, below, d, indexes);
        walk::lemma_walk_item(at, below, items.last(), inner);
        assert(objects_within(items.last()) == match items.last() {
            Json::Object(inside) => 1 + objects_in_fields(inside),
            Json::Array(nested) => objects_in_items(nested),
            _ => 0,
        });
        match items.last() {
            Json::Object(inside) => {
                lemma_fields_number(at, below, inside, inner);
            },
            Json::Array(nested) => {
                lemma_items_number(at, below, nested, inner);
            },
            _ => {},
        }
    }
}

/// Fields are walked in their order, and so are roots, each for itself.
pub proof fn law_walks_go_in_order<P>(
    at: P,
    below: spec_fn(P, Seq<char>) -> P,
    a: Seq<(Seq<char>, Json)>,
    b: Seq<(Seq<char>, Json)>,
    indexes: Seq<nat>,
    r: Seq<Occ<P>>,
    s: Seq<Occ<P>>,
    root: Occ<P>,
)
    ensures
        walk::walk_fields(at, below, a + b, indexes) == walk::walk_fields(at, below, a, indexes)
            + walk::walk_fields(at, below, b, indexes),
        walk::walk_all(r + s, below) == walk::walk_all(r, below) + walk::walk_all(s, below),
        walk::walk_all(seq![root], below) == walk::walk_object(
            root.at,
            below,
            root.fields,
            root.role,
            root.indexes,
        ),
    decreases b.len() + s.len(),
{
    reveal_with_fuel(walk::walk_all, 2);
    assert(seq![root].drop_last() =~= Seq::empty());
    assert(walk::walk_all(seq![root], below) =~= walk::walk_object(
        root.at,
        below,
        root.fields,
        root.role,
        root.indexes,
    ));
    if b.len() == 0 {
        assert(a + b =~= a);
        assert(walk::walk_fields(at, below, a + b, indexes) =~= walk::walk_fields(
            at,
            below,
            a,
            indexes,
        ) + walk::walk_fields(at, below, b, indexes));
    } else {
        law_walks_go_in_order(at, below, a, b.drop_last(), indexes, r, s, root);
        assert((a + b).drop_last() =~= a + b.drop_last());
        assert((a + b).last() == b.last());
        assert(walk::walk_fields(at, below, a + b, indexes) =~= walk::walk_fields(
            at,
            below,
            a,
            indexes,
        ) + walk::walk_fields(at, below, b, indexes));
    }
    if s.len() == 0 {
        assert(r + s =~= r);
        assert(walk::walk_all(r + s, below) =~= walk::walk_all(r, below) + walk::walk_all(s, below));
    } else {
        law_walks_go_in_order(at, below, a, b, indexes, r, s.drop_last(), root);
        assert((r + s).drop_last() =~= r + s.drop_last());
        assert((r + s).last() == s.last());
        assert(walk::walk_all(r + s, below) =~= walk::walk_all(r, below) + walk::walk_all(s, below));
    }
}

/// The occurrences with one role are all that have it, in their order.
pub proof fn law_roles_are_picked<P>(occs: Seq<Occ<P>>, role: Role)
    ensures
        walk::of_role(occs, role) == occs.filter(|o: Occ<P>| o.role == role),
    decreases occs.len(),
{
    reveal(Seq::filter);
    if occs.len() > 0 {
        law_roles_are_picked(occs.drop_last(), role);
    }
}

} // verus!
