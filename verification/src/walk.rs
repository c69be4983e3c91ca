//! The walk over all objects of a JSON value.

use crate::json;
use crate::json::{copy_fields, Json, JsonValue};
use crate::text;
use vstd::prelude::*;

verus! {

/// Where an object stands: in a field (or alone at the top), in an array, or among the
/// top-level values of a collection.
#[derive(Clone, Copy, PartialEq, Eq, Structural, Debug)]
pub enum Role {
    Object,
    ArrayItem,
    RootCollection,
}

/// One object met on a walk: its place, its fields, its role, and its position in every
/// enclosing array. Places are chains of keys or paths.
pub ghost struct Occ<P> {
    pub at: P,
    pub fields: Seq<(Seq<char>, Json)>,
    pub role: Role,
    pub indexes: Seq<nat>,
}

/// The objects in an object, itself first, then field by field. `below` leads from the place
/// of an object to that of a field.
pub open spec fn walk_object<P>(
    at: P,
    below: spec_fn(P, Seq<char>) -> P,
    fields: Seq<(Seq<char>, Json)>,
    role: Role,
    indexes: Seq<nat>,
) -> Seq<Occ<P>>
    decreases fields, 1int,
{
    seq![Occ { at, fields, role, indexes }] + walk_fields(at, below, fields, indexes)
}

pub open spec fn walk_fields<P>(
    at: P,
    below: spec_fn(P, Seq<char>) -> P,
    fields: Seq<(Seq<char>, Json)>,
    indexes: Seq<nat>,
) -> Seq<Occ<P>>
    decreases fields, 0int,
{
    if fields.len() == 0 {
        Seq::empty()
    } else {
        walk_fields(at, below, fields.drop_last(), indexes) + walk_child(
            below(at, fields.last().0),
            below,
            fields.last().1,
            indexes,
        )
    }
}

pub open spec fn walk_child<P>(
    at: P,
    below: spec_fn(P, Seq<char>) -> P,
    child: Json,
    indexes: Seq<nat>,
) -> Seq<Occ<P>>
    decreases child, 0int,
{
    match child {
        Json::Object(fields) => walk_object(at, below, fields, Role::Object, indexes),
        Json::Array(items) => walk_items(at, below, items, indexes),
        _ => Seq::empty(),
    }
}

/// The objects in an array: each position is put behind the positions of the enclosing arrays.
pub open spec fn walk_items<P>(
    at: P,
    below: spec_fn(P, Seq<char>) -> P,
    items: Seq<Json>,
    indexes: Seq<nat>,
) -> Seq<Occ<P>>
    decreases items, 0int,
{
    if items.len() == 0 {
        Seq::empty()
    } else {
        walk_items(at, below, items.drop_last(), indexes) + walk_item(
            at,
            below,
            items.last(),
            indexes.push((items.len() - 1) as nat),
        )
    }
}

pub open spec fn walk_item<P>(
    at: P,
    below: spec_fn(P, Seq<char>) -> P,
    item: Json,
    indexes: Seq<nat>,
) -> Seq<Occ<P>>
    decreases item, 0int,
{
    match item {
        Json::Object(fields) => walk_object(at, below, fields, Role::ArrayItem, indexes),
        Json::Array(items) => walk_items(at, below, items, indexes),
        _ => Seq::empty(),
    }
}

/// Places as chains of keys.
pub open spec fn by_keys() -> spec_fn(Seq<Seq<char>>, Seq<char>) -> Seq<Seq<char>> {
    |at: Seq<Seq<char>>, key: Seq<char>| at.push(key)
}

/// One object met on a walk.
#[derive(Debug)]
pub struct Occurrence {
    pub segments: Vec<String>,
    pub value: Vec<(String, JsonValue)>,
    pub role: Role,
    pub array_indexes: Vec<usize>,
}

pub open spec fn occurrence_model(o: Occurrence) -> Occ<Seq<Seq<char>>> {
    Occ {
        at: text::models(o.segments@),
        fields: json::fields_model(o.value@),
        role: o.role,
        indexes: text::models(o.array_indexes@),
    }
}

pub open spec fn occurrences_model(occurrences: Seq<Occurrence>) -> Seq<Occ<Seq<Seq<char>>>> {
    Seq::new(occurrences.len(), |i: int| occurrence_model(occurrences[i]))
}

pub fn copy_texts(texts: &Vec<String>) -> (r: Vec<String>)
    ensures
        text::models(r@) == text::models(texts@),
{
    let mut out: Vec<String> = Vec::new();
    let mut i: usize = 0;
    while i < texts.len()
        invariant
            i <= texts@.len(),
            out@.len() == i,
            forall|j: int| 0 <= j < i ==> (#[trigger] out@[j])@ == texts@[j]@,
        decreases texts@.len() - i,
    {
        out.push(texts[i].clone());
        i = i + 1;
    }
    assert(text::models(out@) =~= text::models(texts@));
    out
}

pub fn copy_indexes(indexes: &Vec<usize>) -> (r: Vec<usize>)
    ensures
        r@ == indexes@,
{
    let mut out: Vec<usize> = Vec::new();
    let mut i: usize = 0;
    while i < indexes.len()
        invariant
            i <= indexes@.len(),
            out@ == indexes@.take(i as int),
        decreases indexes@.len() - i,
    {
        out.push(indexes[i]);
        assert(indexes@.take(i + 1) =~= indexes@.take(i as int).push(indexes@[i as int]));
        i = i + 1;
    }
    assert(indexes@.take(indexes@.len() as int) =~= indexes@);
    out
}

/// Appends every object of an object at `segments`, itself first.
pub fn collect_object_occurrences(
    segments: &Vec<String>,
    value: &Vec<(String, JsonValue)>,
    role: Role,
    array_indexes: &Vec<usize>,
    out: &mut Vec<Occurrence>,
)
    ensures
        occurrences_model(final(out)@) == occurrences_model(old(out)@) + walk_object(
            text::models(segments@),
            by_keys(),
            json::fields_model(value@),
            role,
            text::models(array_indexes@),
        ),
    decreases value, 1int,
{
    let ghost at = text::models(segments@);
    let ghost fields = json::fields_model(value@);
    let ghost indexes = text::models(array_indexes@);
    let ghost before = occurrences_model(out@);
    let ghost start = out@;
    out.push(
        Occurrence {
            segments: copy_texts(segments),
            value: copy_fields(value),
            role,
            array_indexes: copy_indexes(array_indexes),
        },
    );
    let ghost own = before.push(Occ { at, fields, role, indexes });
    assert(occurrences_model(out@) =~= own);
    let mut i: usize = 0;
    proof {
        assert(fields.take(0) =~= Seq::empty());
        assert(walk_fields(at, by_keys(), fields.take(0), indexes) =~= Seq::empty());
        assert(own + walk_fields(at, by_keys(), fields.take(0), indexes) =~= own);
    }
    while i < value.len()
        invariant
            i <= value@.len(),
            at == text::models(segments@),
            fields == json::fields_model(value@),
            indexes == text::models(array_indexes@),
            occurrences_model(out@) == own + walk_fields(
                at,
                by_keys(),
                fields.take(i as int),
                indexes,
            ),
        decreases value@.len() - i,
    {
        let ghost so_far = occurrences_model(out@);
        let ghost child = json::model(value@[i as int].1);
        let mut child_segments = copy_texts(segments);
        child_segments.push(value[i].0.clone());
        proof {
            assert(text::models(child_segments@) =~= at.push(fields[i as int].0));
            assert(fields.take(i + 1).drop_last() =~= fields.take(i as int));
            assert(fields.take(i + 1).last() == fields[i as int]);
        }
        match &value[i].1 {
            JsonValue::Object(map) => {
                proof {
                    json::lemma_model_object(*map);
                }
                collect_object_occurrences(&child_segments, map, Role::Object, array_indexes, out);
            },
            JsonValue::Array(items) => {
                proof {
                    json::lemma_model_array(*items);
                }
                collect_array_object_occurrences(&child_segments, items, array_indexes, out);
            },
            _ => {
                assert(so_far + Seq::<Occ<Seq<Seq<char>>>>::empty() =~= so_far);
            },
        }
        proof {
            assert(occurrences_model(out@) == so_far + walk_child(
                at.push(fields[i as int].0),
                by_keys(),
                child,
                indexes,
            ));
            assert(occurrences_model(out@) =~= own + walk_fields(
                at,
                by_keys(),
                fields.take(i + 1),
                indexes,
            ));
        }
        i = i + 1;
    }
    proof {
        assert(fields.take(fields.len() as int) =~= fields);
        assert(occurrences_model(out@) =~= before + walk_object(
            at,
            by_keys(),
            fields,
            role,
            indexes,
        ));
    }
}

/// Appends every object of an array at `segments`.
pub fn collect_array_object_occurrences(
    segments: &Vec<String>,
    items: &Vec<JsonValue>,
    array_indexes: &Vec<usize>,
    out: &mut Vec<Occurrence>,
)
    ensures
        occurrences_model(final(out)@) == occurrences_model(old(out)@) + walk_items(
            text::models(segments@),
            by_keys(),
            json::items_model(items@),
            text::models(array_indexes@),
        ),
    decreases items, 0int,
{
    let ghost at = text::models(segments@);
    let ghost all = json::items_model(items@);
    let ghost indexes = text::models(array_indexes@);
    let ghost before = occurrences_model(out@);
    let mut i: usize = 0;
    proof {
        assert(all.take(0) =~= Seq::empty());
        assert(before + walk_items(at, by_keys(), all.take(0), indexes) =~= before);
    }
    while i < items.len()
        invariant
            i <= items@.len(),
            at == text::models(segments@),
            all == json::items_model(items@),
            indexes == text::models(array_indexes@),
            occurrences_model(out@) == before + walk_items(
                at,
                by_keys(),
                all.take(i as int),
                indexes,
            ),
        decreases items@.len() - i,
    {
        let ghost so_far = occurrences_model(out@);
        let mut item_indexes = copy_indexes(array_indexes);
        item_indexes.push(i);
        proof {
            assert(text::models(item_indexes@) =~= indexes.push(i as nat));
            assert(all.take(i + 1).drop_last() =~= all.take(i as int));
            assert(all.take(i + 1).last() == all[i as int]);
        }
        match &items[i] {
            JsonValue::Object(map) => {
                proof {
                    json::lemma_model_object(*map);
                }
                collect_object_occurrences(segments, map, Role::ArrayItem, &item_indexes, out);
            },
            JsonValue::Array(nested) => {
                proof {
                    json::lemma_model_array(*nested);
                }
                collect_array_object_occurrences(segments, nested, &item_indexes, out);
            },
            _ => {
                assert(so_far + Seq::<Occ<Seq<Seq<char>>>>::empty() =~= so_far);
            },
        }
        proof {
            assert(occurrences_model(out@) == so_far + walk_item(
                at,
                by_keys(),
                all[i as int],
                indexes.push(i as nat),
            ));
            assert(occurrences_model(out@) =~= before + walk_items(
                at,
                by_keys(),
                all.take(i + 1),
                indexes,
            ));
        }
        i = i + 1;
    }
    assert(all.take(all.len() as int) =~= all);
}

/// A top-level object of the input: its chain of keys, its position among the top-level
/// values where they form a collection, and its fields.
#[derive(Debug)]
pub struct Entry {
    pub path: Vec<String>,
    pub index: Option<usize>,
    pub collection: bool,
    pub value: Vec<(String, JsonValue)>,
}

/// What an entry stands for: itself as the first object of its walk.
pub open spec fn entry_model(e: Entry) -> Occ<Seq<Seq<char>>> {
    Occ {
        at: text::models(e.path@),
        fields: json::fields_model(e.value@),
        role: if e.collection {
            Role::RootCollection
        } else {
            Role::Object
        },
        indexes: match e.index {
            Some(i) => seq![i as nat],
            None => Seq::empty(),
        },
    }
}

pub open spec fn entries_model(entries: Seq<Entry>) -> Seq<Occ<Seq<Seq<char>>>> {
    Seq::new(entries.len(), |i: int| entry_model(entries[i]))
}

/// The objects of all entries, in their order.
pub open spec fn walk_all<P>(roots: Seq<Occ<P>>, below: spec_fn(P, Seq<char>) -> P) -> Seq<Occ<P>>
    decreases roots.len(),
{
    if roots.len() == 0 {
        Seq::empty()
    } else {
        let root = roots.last();
        walk_all(roots.drop_last(), below) + walk_object(
            root.at,
            below,
            root.fields,
            root.role,
            root.indexes,
        )
    }
}

/// Every object of every entry.
pub fn collect_occurrences(entries: &Vec<Entry>) -> (r: Vec<Occurrence>)
    ensures
        occurrences_model(r@) == walk_all(entries_model(entries@), by_keys()),
{
    let ghost roots = entries_model(entries@);
    let mut out: Vec<Occurrence> = Vec::new();
    let mut i: usize = 0;
    assert(roots.take(0) =~= Seq::empty());
    assert(occurrences_model(out@) =~= Seq::empty());
    while i < entries.len()
        invariant
            roots == entries_model(entries@),
            i <= entries@.len(),
            occurrences_model(out@) == walk_all(roots.take(i as int), by_keys()),
        decreases entries@.len() - i,
    {
        proof {
            assert(roots.take(i + 1).drop_last() =~= roots.take(i as int));
            assert(roots.take(i + 1).last() == roots[i as int]);
        }
        let role = if entries[i].collection {
            Role::RootCollection
        } else {
            Role::Object
        };
        let mut indexes: Vec<usize> = Vec::new();
        if let Some(index) = entries[i].index {
            indexes.push(index);
        }
        assert(text::models(indexes@) =~= roots[i as int].indexes);
        collect_object_occurrences(&entries[i].path, &entries[i].value, role, &indexes, &mut out);
        i = i + 1;
    }
    assert(roots.take(roots.len() as int) =~= roots);
    out
}

/// What a field adds to a walk.
pub proof fn lemma_walk_child<P>(
    at: P,
    below: spec_fn(P, Seq<char>) -> P,
    child: Json,
    indexes: Seq<nat>,
)
    ensures
        walk_child(at, below, child, indexes) == match child {
            Json::Object(fields) => seq![Occ { at, fields, role: Role::Object, indexes }]
                + walk_fields(at, below, fields, indexes),
            Json::Array(items) => walk_items(at, below, items, indexes),
            _ => Seq::empty(),
        },
{
    if let Json::Object(fields) = child {
        assert(walk_child(at, below, child, indexes) == walk_object(
            at,
            below,
            fields,
            Role::Object,
            indexes,
        ));
    }
}

/// What an item adds to a walk.
pub proof fn lemma_walk_item<P>(
    at: P,
    below: spec_fn(P, Seq<char>) -> P,
    item: Json,
    indexes: Seq<nat>,
)
    ensures
        walk_item(at, below, item, indexes) == match item {
            Json::Object(fields) => seq![Occ { at, fields, role: Role::ArrayItem, indexes }]
                + walk_fields(at, below, fields, indexes),
            Json::Array(items) => walk_items(at, below, items, indexes),
            _ => Seq::empty(),
        },
{
    if let Json::Object(fields) = item {
        assert(walk_item(at, below, item, indexes) == walk_object(
            at,
            below,
            fields,
            Role::ArrayItem,
            indexes,
        ));
    }
}

/// An object below the top of a walk: in a field, or in an array and with a position.
pub open spec fn inner<P>(o: Occ<P>) -> bool {
    o.role == Role::Object || (o.role == Role::ArrayItem && o.indexes.len() > 0)
}

pub open spec fn all_inner<P>(occs: Seq<Occ<P>>) -> bool {
    forall|i: int| 0 <= i < occs.len() ==> inner(#[trigger] occs[i])
}

pub proof fn lemma_fields_inner<P>(
    at: P,
    below: spec_fn(P, Seq<char>) -> P,
    fields: Seq<(Seq<char>, Json)>,
    indexes: Seq<nat>,
)
    ensures
        all_inner(walk_fields(at, below, fields, indexes)),
    decreases fields, 0int,
{
    if fields.len() > 0 {
        lemma_fields_inner(at, below, fields.drop_last(), indexes);
        let place = below(at, fields.last().0);
        lemma_walk_child(place, below, fields.last().1, indexes);
        match fields.last().1 {
            Json::Object(inside) => {
                lemma_fields_inner(place, below, inside, indexes);
            },
            Json::Array(items) => {
                lemma_items_inner(place, below, items, indexes);
            },
            _ => {},
        }
    }
}

pub proof fn lemma_items_inner<P>(
    at: P,
    below: spec_fn(P, Seq<char>) -> P,
    items: Seq<Json>,
    indexes: Seq<nat>,
)
    ensures
        all_inner(walk_items(at, below, items, indexes)),
    decreases items, 0int,
{
    if items.len() > 0 {
        lemma_items_inner(at, below, items.drop_last(), indexes);
        let place = indexes.push((items.len() - 1) as nat);
        lemma_walk_item(at, below, items.last(), place);
        match items.last() {
            Json::Object(inside) => {
                lemma_fields_inner(at, below, inside, place);
            },
            Json::Array(nested) => {
                lemma_items_inner(at, below, nested, place);
            },
            _ => {},
        }
    }
}

/// The occurrences with the role `role`, in their order.
pub open spec fn of_role<P>(occs: Seq<Occ<P>>, role: Role) -> Seq<Occ<P>>
    decreases occs.len(),
{
    if occs.len() == 0 {
        Seq::empty()
    } else if occs.last().role == role {
        of_role(occs.drop_last(), role).push(occs.last())
    } else {
        of_role(occs.drop_last(), role)
    }
}

pub proof fn lemma_of_role_concat<P>(a: Seq<Occ<P>>, b: Seq<Occ<P>>, role: Role)
    ensures
        of_role(a + b, role) == of_role(a, role) + of_role(b, role),
    decreases b.len(),
{
    if b.len() == 0 {
        assert(a + b =~= a);
        assert(of_role(a, role) + Seq::<Occ<P>>::empty() =~= of_role(a, role));
    } else {
        lemma_of_role_concat(a, b.drop_last(), role);
        assert((a + b).drop_last() =~= a + b.drop_last());
        assert((a + b).last() == b.last());
        assert(of_role(a + b, role) =~= of_role(a, role) + of_role(b, role));
    }
}

pub proof fn lemma_of_role_all<P>(occs: Seq<Occ<P>>, role: Role)
    ensures
        forall|i: int|
            0 <= i < of_role(occs, role).len() ==> (#[trigger] of_role(occs, role)[i]).role == role
                && occs.contains(of_role(occs, role)[i]),
        forall|i: int|
            0 <= i < occs.len() && (#[trigger] occs[i]).role == role ==> of_role(
                occs,
                role,
            ).contains(occs[i]),
    decreases occs.len(),
{
    if occs.len() > 0 {
        let d = occs.drop_last();
        let r = of_role(occs, role);
        lemma_of_role_all(d, role);
        assert forall|i: int| 0 <= i < r.len() implies (#[trigger] r[i]).role == role
            && occs.contains(r[i]) by {
            if i < of_role(d, role).len() {
                assert(of_role(d, role)[i] == r[i]);
                let j = choose|j: int| 0 <= j < d.len() && d[j] == r[i];
                assert(occs[j] == r[i]);
            } else {
                assert(occs[occs.len() - 1] == r[i]);
            }
        }
        assert forall|i: int| 0 <= i < occs.len() && (#[trigger] occs[i]).role == role implies r.contains(
            occs[i],
        ) by {
            if i < d.len() {
                assert(d[i] == occs[i]);
                let j = choose|j: int| 0 <= j < of_role(d, role).len() && of_role(d, role)[j] == d[i];
                assert(r[j] == occs[i]);
            } else {
                assert(r[r.len() - 1] == occs[i]);
            }
        }
    }
}

/// The top-level objects of a walk are its roots, and items of arrays have positions.
pub proof fn lemma_walk_all_roles<P>(roots: Seq<Occ<P>>, below: spec_fn(P, Seq<char>) -> P)
    ensures
        of_role(walk_all(roots, below), Role::RootCollection) == of_role(
            roots,
            Role::RootCollection,
        ),
        (forall|i: int| 0 <= i < roots.len() ==> (#[trigger] roots[i]).role != Role::ArrayItem)
            ==> forall|i: int|
            0 <= i < walk_all(roots, below).len() && (#[trigger] walk_all(roots, below)[i]).role
                == Role::ArrayItem ==> walk_all(roots, below)[i].indexes.len() > 0,
    decreases roots.len(),
{
    if roots.len() > 0 {
        let d = roots.drop_last();
        let root = roots.last();
        lemma_walk_all_roles(d, below);
        let inside = walk_fields(root.at, below, root.fields, root.indexes);
        lemma_fields_inner(root.at, below, root.fields, root.indexes);
        let own = walk_object(root.at, below, root.fields, root.role, root.indexes);
        assert(own == seq![root] + inside);
        lemma_of_role_concat(walk_all(d, below), own, Role::RootCollection);
        lemma_of_role_concat(seq![root], inside, Role::RootCollection);
        lemma_no_roots(inside);
        assert(seq![root].drop_last() =~= Seq::empty());
        reveal_with_fuel(of_role, 2);
        assert(of_role(walk_all(roots, below), Role::RootCollection) =~= of_role(
            roots,
            Role::RootCollection,
        ));
        if forall|i: int| 0 <= i < roots.len() ==> (#[trigger] roots[i]).role != Role::ArrayItem {
            assert(roots[roots.len() - 1].role != Role::ArrayItem);
            assert forall|i: int| 0 <= i < d.len() implies (#[trigger] d[i]).role
                != Role::ArrayItem by {
                assert(roots[i].role != Role::ArrayItem);
            }
        }
    }
}

proof fn lemma_no_roots<P>(occs: Seq<Occ<P>>)
    requires
        all_inner(occs),
    ensures
        of_role(occs, Role::RootCollection) == Seq::<Occ<P>>::empty(),
    decreases occs.len(),
{
    if occs.len() > 0 {
        assert(inner(occs[occs.len() - 1]));
        assert forall|i: int| 0 <= i < occs.drop_last().len() implies inner(
            #[trigger] occs.drop_last()[i],
        ) by {
            assert(inner(occs[i]));
        }
        lemma_no_roots(occs.drop_last());
    }
}

} // verus!
