//! Where the objects of a walk stand: chains of keys against paths, and no two at one place.

use crate::json;
use crate::json::Json;
use crate::order;
use crate::path;
use crate::recorder;
use crate::walk;
use crate::walk::{Occ, Role};
use vstd::prelude::*;

verus! {

/// The same occurrence with its path in place of its chain of keys.
pub open spec fn located(outdir: Seq<char>, o: Occ<Seq<Seq<char>>>) -> Occ<Seq<char>> {
    Occ {
        at: path::reference(outdir, o.at),
        fields: o.fields,
        role: o.role,
        indexes: o.indexes,
    }
}

pub open spec fn all_located(outdir: Seq<char>, occs: Seq<Occ<Seq<Seq<char>>>>) -> Seq<
    Occ<Seq<char>>,
> {
    Seq::new(occs.len(), |i: int| located(outdir, occs[i]))
}

pub proof fn lemma_located_concat(
    outdir: Seq<char>,
    a: Seq<Occ<Seq<Seq<char>>>>,
    b: Seq<Occ<Seq<Seq<char>>>>,
)
    ensures
        all_located(outdir, a + b) == all_located(outdir, a) + all_located(outdir, b),
{
    assert(all_located(outdir, a + b) =~= all_located(outdir, a) + all_located(outdir, b));
}

proof fn lemma_located_fields(
    outdir: Seq<char>,
    at: Seq<Seq<char>>,
    fields: Seq<(Seq<char>, Json)>,
    indexes: Seq<nat>,
)
    requires
        at.len() > 0,
    ensures
        walk::walk_fields(path::reference(outdir, at), recorder::by_paths(), fields, indexes)
            == all_located(outdir, walk::walk_fields(at, walk::by_keys(), fields, indexes)),
    decreases fields, 0int,
{
    let base = path::reference(outdir, at);
    if fields.len() == 0 {
        assert(all_located(outdir, walk::walk_fields(at, walk::by_keys(), fields, indexes))
            =~= Seq::empty());
    } else {
        let d = fields.drop_last();
        let key = fields.last().0;
        let child = fields.last().1;
        lemma_located_fields(outdir, at, d, indexes);
        path::lemma_reference_push(outdir, at, key);
        let below = at.push(key);
        let below_path = path::reference(outdir, below);
        walk::lemma_walk_child(below, walk::by_keys(), child, indexes);
        walk::lemma_walk_child(below_path, recorder::by_paths(), child, indexes);
        match child {
            Json::Object(inside) => {
                lemma_located_fields(outdir, below, inside, indexes);
                let own = Occ { at: below, fields: inside, role: Role::Object, indexes };
                lemma_located_concat(
                    outdir,
                    seq![own],
                    walk::walk_fields(below, walk::by_keys(), inside, indexes),
                );
                assert(all_located(outdir, seq![own]) =~= seq![located(outdir, own)]);
            },
            Json::Array(items) => {
                lemma_located_items(outdir, below, items, indexes);
            },
            _ => {
                assert(all_located(outdir, Seq::empty()) =~= Seq::empty());
            },
        }
        lemma_located_concat(
            outdir,
            walk::walk_fields(at, walk::by_keys(), d, indexes),
            walk::walk_child(below, walk::by_keys(), child, indexes),
        );
    }
}

proof fn lemma_located_items(
    outdir: Seq<char>,
    at: Seq<Seq<char>>,
    items: Seq<Json>,
    indexes: Seq<nat>,
)
    requires
        at.len() > 0,
    ensures
        walk::walk_items(path::reference(outdir, at), recorder::by_paths(), items, indexes)
            == all_located(outdir, walk::walk_items(at, walk::by_keys(), items, indexes)),
    decreases items, 0int,
{
    let base = path::reference(outdir, at);
    if items.len() == 0 {
        assert(all_located(outdir, walk::walk_items(at, walk::by_keys(), items, indexes))
            =~= Seq::empty());
    } else {
        let d = items.drop_last();
        let item = items.last();
        let inner = indexes.push((items.len() - 1) as nat);
        lemma_located_items(outdir, at, d, indexes);
        walk::lemma_walk_item(at, walk::by_keys(), item, inner);
        walk::lemma_walk_item(base, recorder::by_paths(), item, inner);
        match item {
            Json::Object(inside) => {
                lemma_located_fields(outdir, at, inside, inner);
                let own = Occ { at, fields: inside, role: Role::ArrayItem, indexes: inner };
                lemma_located_concat(
                    outdir,
                    seq![own],
                    walk::walk_fields(at, walk::by_keys(), inside, inner),
                );
                assert(all_located(outdir, seq![own]) =~= seq![located(outdir, own)]);
            },
            Json::Array(nested) => {
                lemma_located_items(outdir, at, nested, inner);
            },
            _ => {
                assert(all_located(outdir, Seq::empty()) =~= Seq::empty());
            },
        }
        lemma_located_concat(
            outdir,
            walk::walk_items(at, walk::by_keys(), d, indexes),
            walk::walk_item(at, walk::by_keys(), item, inner),
        );
    }
}

/// A walk by paths meets what the walk by keys meets.
pub proof fn lemma_located_walk(outdir: Seq<char>, roots: Seq<Occ<Seq<Seq<char>>>>)
    requires
        forall|i: int| 0 <= i < roots.len() ==> (#[trigger] roots[i]).at.len() > 0,
    ensures
        walk::walk_all(all_located(outdir, roots), recorder::by_paths()) == all_located(
            outdir,
            walk::walk_all(roots, walk::by_keys()),
        ),
    decreases roots.len(),
{
    if roots.len() == 0 {
        assert(all_located(outdir, walk::walk_all(roots, walk::by_keys())) =~= Seq::empty());
    } else {
        let d = roots.drop_last();
        let root = roots[roots.len() - 1];
        assert forall|i: int| 0 <= i < d.len() implies (#[trigger] d[i]).at.len() > 0 by {
            assert(roots[i].at.len() > 0);
        }
        lemma_located_walk(outdir, d);
        assert(all_located(outdir, roots).drop_last() =~= all_located(outdir, d));
        lemma_located_fields(outdir, root.at, root.fields, root.indexes);
        let inside = walk::walk_fields(root.at, walk::by_keys(), root.fields, root.indexes);
        let own = walk::walk_object(
            root.at,
            walk::by_keys(),
            root.fields,
            root.role,
            root.indexes,
        );
        assert(own == seq![root] + inside);
        lemma_located_concat(outdir, seq![root], inside);
        assert(all_located(outdir, seq![root]) =~= seq![located(outdir, root)]);
        lemma_located_concat(outdir, walk::walk_all(d, walk::by_keys()), own);
    }
}

/// Two occurrences at one place and position.
pub open spec fn same_spot<P>(a: Occ<P>, b: Occ<P>) -> bool {
    a.at == b.at && a.indexes == b.indexes
}

/// No two occurrences share place and position.
pub open spec fn all_apart<P>(occs: Seq<Occ<P>>) -> bool {
    forall|i: int, j: int|
        0 <= i < j < occs.len() ==> !same_spot(#[trigger] occs[i], #[trigger] occs[j])
}

/// `long` starts with `short`.
pub open spec fn extends<A>(long: Seq<A>, short: Seq<A>) -> bool {
    short.len() <= long.len() && long.take(short.len() as int) == short
}

proof fn lemma_extends_push<A>(long: Seq<A>, short: Seq<A>, x: A)
    requires
        extends(long, short.push(x)),
    ensures
        extends(long, short),
        short.len() < long.len(),
        long[short.len() as int] == x,
{
    let more = short.push(x);
    assert(long.take(more.len() as int)[short.len() as int] == x);
    assert(long.take(short.len() as int) =~= more.take(short.len() as int));
    assert(more.take(short.len() as int) =~= short);
}

/// Where the objects in the fields of an object stand.
pub open spec fn below_fields(
    occs: Seq<Occ<Seq<Seq<char>>>>,
    at: Seq<Seq<char>>,
    names: Seq<Seq<char>>,
    indexes: Seq<nat>,
) -> bool {
    forall|i: int|
        0 <= i < occs.len() ==> extends((#[trigger] occs[i]).at, at) && at.len() < occs[i].at.len()
            && names.contains(occs[i].at[at.len() as int]) && extends(occs[i].indexes, indexes)
            && json::tidy_fields(occs[i].fields)
}

/// Where the objects in an array stand.
pub open spec fn below_items(
    occs: Seq<Occ<Seq<Seq<char>>>>,
    at: Seq<Seq<char>>,
    count: nat,
    indexes: Seq<nat>,
) -> bool {
    forall|i: int|
        0 <= i < occs.len() ==> extends((#[trigger] occs[i]).at, at) && extends(
            occs[i].indexes,
            indexes,
        ) && indexes.len() < occs[i].indexes.len() && occs[i].indexes[indexes.len() as int] < count
            && json::tidy_fields(occs[i].fields)
}

proof fn lemma_apart_concat<P>(a: Seq<Occ<P>>, b: Seq<Occ<P>>)
    requires
        all_apart(a),
        all_apart(b),
        forall|i: int, j: int|
            0 <= i < a.len() && 0 <= j < b.len() ==> !same_spot(#[trigger] a[i], #[trigger] b[j]),
    ensures
        all_apart(a + b),
{
    let c = a + b;
    assert forall|i: int, j: int| 0 <= i < j < c.len() implies !same_spot(
        #[trigger] c[i],
        #[trigger] c[j],
    ) by {
        if j < a.len() {
            assert(!same_spot(a[i], a[j]));
        } else if i >= a.len() {
            assert(!same_spot(b[i - a.len()], b[j - a.len()]));
        } else {
            assert(!same_spot(a[i], b[j - a.len()]));
        }
    }
}

proof fn lemma_fields_apart(
    at: Seq<Seq<char>>,
    fields: Seq<(Seq<char>, Json)>,
    indexes: Seq<nat>,
)
    requires
        json::tidy_fields(fields),
    ensures
        all_apart(walk::walk_fields(at, walk::by_keys(), fields, indexes)),
        below_fields(
            walk::walk_fields(at, walk::by_keys(), fields, indexes),
            at,
            json::names(fields),
            indexes,
        ),
    decreases fields, 0int,
{
    let whole = walk::walk_fields(at, walk::by_keys(), fields, indexes);
    if fields.len() > 0 {
        let d = fields.drop_last();
        let key = fields.last().0;
        let child = fields.last().1;
        let n = fields.len() - 1;
        assert(fields[n] == fields.last());
        assert(json::tidy(fields[n].1));
        lemma_tidy_prefix(fields);
        lemma_fields_apart(at, d, indexes);
        let a = walk::walk_fields(at, walk::by_keys(), d, indexes);
        let place = at.push(key);
        let b = walk::walk_child(place, walk::by_keys(), child, indexes);
        walk::lemma_walk_child(place, walk::by_keys(), child, indexes);
        match child {
            Json::Object(inside) => {
                lemma_fields_apart(place, inside, indexes);
                let own = Occ { at: place, fields: inside, role: Role::Object, indexes };
                let rest = walk::walk_fields(place, walk::by_keys(), inside, indexes);
                assert forall|i: int, j: int| 0 <= i < 1 && 0 <= j < rest.len() implies !same_spot(
                    #[trigger] seq![own][i],
                    #[trigger] rest[j],
                ) by {
                    assert(place.len() < rest[j].at.len());
                }
                lemma_apart_concat(seq![own], rest);
                assert(place.take(place.len() as int) =~= place);
                assert(indexes.take(indexes.len() as int) =~= indexes);
            },
            Json::Array(items) => {
                lemma_items_apart(place, items, indexes);
            },
            _ => {},
        }
        assert(forall|j: int|
            0 <= j < b.len() ==> extends((#[trigger] b[j]).at, place) && extends(
                b[j].indexes,
                indexes,
            ) && json::tidy_fields(b[j].fields));
        assert forall|i: int, j: int| 0 <= i < a.len() && 0 <= j < b.len() implies !same_spot(
            #[trigger] a[i],
            #[trigger] b[j],
        ) by {
            lemma_extends_push(b[j].at, at, key);
            let names = json::names(d);
            let m = names.index_of(a[i].at[at.len() as int]);
            assert(json::names(fields)[m] == names[m]);
            assert(json::names(fields)[n] == key);
            order::lemma_before_excludes(json::names(fields)[m], json::names(fields)[n]);
        }
        lemma_apart_concat(a, b);
        assert forall|i: int| 0 <= i < whole.len() implies extends((#[trigger] whole[i]).at, at)
            && at.len() < whole[i].at.len() && json::names(fields).contains(
            whole[i].at[at.len() as int],
        ) && extends(whole[i].indexes, indexes) && json::tidy_fields(whole[i].fields) by {
            if i < a.len() {
                assert(whole[i] == a[i]);
                let names = json::names(d);
                let m = names.index_of(a[i].at[at.len() as int]);
                assert(json::names(fields)[m] == names[m]);
            } else {
                assert(whole[i] == b[i - a.len()]);
                lemma_extends_push(b[i - a.len()].at, at, key);
                assert(json::names(fields)[n] == key);
            }
        }
    }
}

proof fn lemma_tidy_prefix(fields: Seq<(Seq<char>, Json)>)
    requires
        json::tidy_fields(fields),
        fields.len() > 0,
    ensures
        json::tidy_fields(fields.drop_last()),
{
    let d = fields.drop_last();
    assert forall|i: int, j: int| 0 <= i < j < d.len() implies order::Ordered::before(
        #[trigger] json::names(d)[i],
        #[trigger] json::names(d)[j],
    ) by {
        assert(json::names(fields)[i] == json::names(d)[i]);
        assert(json::names(fields)[j] == json::names(d)[j]);
    }
    assert forall|i: int| 0 <= i < d.len() implies json::tidy((#[trigger] d[i]).1) by {
        assert(json::tidy(fields[i].1));
    }
}

proof fn lemma_items_apart(at: Seq<Seq<char>>, items: Seq<Json>, indexes: Seq<nat>)
    requires
        json::tidy(Json::Array(items)),
    ensures
        all_apart(walk::walk_items(at, walk::by_keys(), items, indexes)),
        below_items(
            walk::walk_items(at, walk::by_keys(), items, indexes),
            at,
            items.len(),
            indexes,
        ),
    decreases items, 0int,
{
    let whole = walk::walk_items(at, walk::by_keys(), items, indexes);
    if items.len() > 0 {
        let d = items.drop_last();
        let item = items.last();
        let n = (items.len() - 1) as nat;
        json::lemma_tidy_items(items);
        assert(json::tidy(items[n as int]));
        assert(json::tidy(Json::Array(d))) by {
            assert forall|i: int| 0 <= i < d.len() implies json::tidy(#[trigger] d[i]) by {
                assert(json::tidy(items[i]));
            }
        }
        lemma_items_apart(at, d, indexes);
        let inner = indexes.push(n);
        let a = walk::walk_items(at, walk::by_keys(), d, indexes);
        let b = walk::walk_item(at, walk::by_keys(), item, inner);
        walk::lemma_walk_item(at, walk::by_keys(), item, inner);
        match item {
            Json::Object(inside) => {
                lemma_fields_apart(at, inside, inner);
                let own = Occ { at, fields: inside, role: Role::ArrayItem, indexes: inner };
                let rest = walk::walk_fields(at, walk::by_keys(), inside, inner);
                assert forall|i: int, j: int| 0 <= i < 1 && 0 <= j < rest.len() implies !same_spot(
                    #[trigger] seq![own][i],
                    #[trigger] rest[j],
                ) by {
                    assert(at.len() < rest[j].at.len());
                }
                lemma_apart_concat(seq![own], rest);
                assert(at.take(at.len() as int) =~= at);
                assert(inner.take(inner.len() as int) =~= inner);
            },
            Json::Array(nested) => {
                lemma_items_apart(at, nested, inner);
            },
            _ => {},
        }
        assert(forall|j: int|
            0 <= j < b.len() ==> extends((#[trigger] b[j]).at, at) && extends(
                b[j].indexes,
                inner,
            ) && json::tidy_fields(b[j].fields));
        assert forall|i: int, j: int| 0 <= i < a.len() && 0 <= j < b.len() implies !same_spot(
            #[trigger] a[i],
            #[trigger] b[j],
        ) by {
            lemma_extends_push(b[j].indexes, indexes, n);
            assert(a[i].indexes[indexes.len() as int] < n);
        }
        lemma_apart_concat(a, b);
        assert forall|i: int| 0 <= i < whole.len() implies extends((#[trigger] whole[i]).at, at)
            && extends(whole[i].indexes, indexes) && indexes.len() < whole[i].indexes.len()
            && whole[i].indexes[indexes.len() as int] < items.len() && json::tidy_fields(
            whole[i].fields,
        ) by {
            if i < a.len() {
                assert(whole[i] == a[i]);
            } else {
                assert(whole[i] == b[i - a.len()]);
                lemma_extends_push(b[i - a.len()].indexes, indexes, n);
            }
        }
    }
}

/// What holds of the walk over the members of a collection.
pub open spec fn sound_walk(occs: Seq<Occ<Seq<Seq<char>>>>, root: Seq<char>, count: nat) -> bool {
    &&& all_apart(occs)
    &&& forall|i: int|
        0 <= i < occs.len() ==> (#[trigger] occs[i]).at.len() > 0 && occs[i].at[0] == root
            && occs[i].indexes.len() > 0 && occs[i].indexes[0] < count && json::tidy_fields(
            occs[i].fields,
        ) && (occs[i].role == Role::RootCollection <==> occs[i].at.len() == 1)
}

/// The objects of a collection stand apart.
pub proof fn lemma_collection_apart(root: Seq<char>, values: Seq<Json>)
    requires
        crate::input::all_objects(values),
        crate::input::all_tidy(values),
    ensures
        sound_walk(
            walk::walk_all(
                crate::input::members_of_collection(root, values),
                walk::by_keys(),
            ),
            root,
            values.len(),
        ),
    decreases values.len(),
{
    let roots = crate::input::members_of_collection(root, values);
    let whole = walk::walk_all(roots, walk::by_keys());
    if values.len() > 0 {
        let d = values.drop_last();
        let n = (values.len() - 1) as nat;
        assert forall|i: int| 0 <= i < d.len() implies (#[trigger] d[i]) is Object && json::tidy(
            d[i],
        ) by {
            assert(values[i] is Object && json::tidy(values[i]));
        }
        lemma_collection_apart(root, d);
        assert(roots.drop_last() =~= crate::input::members_of_collection(root, d));
        let o = roots.last();
        assert(values[n as int] is Object && json::tidy(values[n as int]));
        let a = walk::walk_all(roots.drop_last(), walk::by_keys());
        let inside = walk::walk_fields(o.at, walk::by_keys(), o.fields, o.indexes);
        let b = walk::walk_object(o.at, walk::by_keys(), o.fields, o.role, o.indexes);
        assert(b == seq![o] + inside);
        lemma_fields_apart(o.at, o.fields, o.indexes);
        walk::lemma_fields_inner(o.at, walk::by_keys(), o.fields, o.indexes);
        assert forall|i: int, j: int| 0 <= i < 1 && 0 <= j < inside.len() implies !same_spot(
            #[trigger] seq![o][i],
            #[trigger] inside[j],
        ) by {
            assert(o.at.len() < inside[j].at.len());
        }
        lemma_apart_concat(seq![o], inside);
        assert forall|j: int| 0 <= j < b.len() implies (#[trigger] b[j]).at.len() > 0 && b[j].at[0]
            == root && b[j].indexes.len() > 0 && b[j].indexes[0] == n && json::tidy_fields(
            b[j].fields,
        ) && (b[j].role == Role::RootCollection <==> b[j].at.len() == 1) by {
            if j > 0 {
                assert(b[j] == inside[j - 1]);
                assert(walk::inner(inside[j - 1]));
                assert(inside[j - 1].at.take(1)[0] == o.at[0]);
                assert(inside[j - 1].indexes.take(1)[0] == o.indexes[0]);
            }
        }
        assert forall|i: int, j: int| 0 <= i < a.len() && 0 <= j < b.len() implies !same_spot(
            #[trigger] a[i],
            #[trigger] b[j],
        ) by {
            assert(a[i].indexes[0] < n);
        }
        lemma_apart_concat(a, b);
        assert forall|i: int| 0 <= i < whole.len() implies (#[trigger] whole[i]).at.len() > 0
            && whole[i].at[0] == root && whole[i].indexes.len() > 0 && whole[i].indexes[0]
            < values.len() && json::tidy_fields(whole[i].fields) && (whole[i].role
            == Role::RootCollection <==> whole[i].at.len() == 1) by {
            if i < a.len() {
                assert(whole[i] == a[i]);
            } else {
                assert(whole[i] == b[i - a.len()]);
            }
        }
    }
}

} // verus!
