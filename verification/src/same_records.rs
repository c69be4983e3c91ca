//! Streamed objects have the records that objects read at once have.

use crate::facts;
use crate::json;
use crate::order;
use crate::order::Ordered;
use crate::path;
use crate::places;
use crate::recorder;
use crate::records;
use crate::records::Rec;
use crate::streamed;
use crate::streamed_schemas;
use crate::tables;
use crate::tables::Tables;
use crate::walk;
use crate::walk::{Occ, Role};
use vstd::prelude::*;

verus! {

/// Two sequences have the same elements.
pub open spec fn same_elements<A>(a: Seq<A>, b: Seq<A>) -> bool {
    forall|x: A| #[trigger] a.contains(x) <==> b.contains(x)
}

pub proof fn lemma_sorted_same<K: Ordered>(a: Seq<K>, b: Seq<K>)
    requires
        same_elements(a, b),
    ensures
        order::sorted_set(a) == order::sorted_set(b),
{
    order::lemma_sorted_set(a);
    order::lemma_sorted_set(b);
    assert forall|x: K| order::sorted_set(a).contains(x) <==> order::sorted_set(b).contains(x) by {
        assert(a.contains(x) <==> b.contains(x));
    }
    order::lemma_ascending_unique(order::sorted_set(a), order::sorted_set(b));
}

/// What stands under a key are the values of the pairs with that key.
pub proof fn lemma_under_contains<K, T>(pairs: Seq<(K, T)>, k: K, x: T)
    ensures
        order::under(pairs, k).contains(x) <==> pairs.contains((k, x)),
    decreases pairs.len(),
{
    if pairs.len() > 0 {
        let d = pairs.drop_last();
        let last = pairs.last();
        lemma_under_contains(d, k, x);
        let u = order::under(d, k);
        let w = order::under(pairs, k);
        if d.contains((k, x)) {
            let i = choose|i: int| 0 <= i < d.len() && d[i] == (k, x);
            assert(pairs[i] == (k, x));
            let j = choose|j: int| 0 <= j < u.len() && u[j] == x;
            assert(w[j] == x);
        }
        if last == (k, x) {
            assert(pairs[pairs.len() - 1] == (k, x));
            assert(w[u.len() as int] == x);
        }
        if pairs.contains((k, x)) {
            let i = choose|i: int| 0 <= i < pairs.len() && pairs[i] == (k, x);
            if i < d.len() {
                assert(d[i] == (k, x));
            }
        }
        if w.contains(x) {
            let j = choose|j: int| 0 <= j < w.len() && w[j] == x;
            if j < u.len() {
                assert(u[j] == x);
            }
        }
    }
}

/// A stable sort of distinct elements.
proof fn lemma_ranked_distinct<K: Ordered>(s: Seq<K>)
    requires
        s.no_duplicates(),
    ensures
        order::firsts(order::ranked(s)) == order::sorted_set(s),
{
    let all = Seq::new(s.len(), |i: int| (s[i], i as nat));
    let ranks = order::ranked(s);
    let f = order::firsts(ranks);
    order::lemma_sorted_set(all);
    order::lemma_sorted_set(s);
    order::lemma_ranked(s);
    assert forall|i: int, j: int| 0 <= i < j < f.len() implies (#[trigger] f[i]).before(
        #[trigger] f[j],
    ) by {
        assert(ranks[i].before(ranks[j]));
        if ranks[i].0 == ranks[j].0 {
            assert(s[ranks[i].1 as int] == s[ranks[j].1 as int]);
            K::irreflexive(ranks[i].0);
        }
    }
    assert forall|x: K| f.contains(x) <==> order::sorted_set(s).contains(x) by {
        if f.contains(x) {
            let i = choose|i: int| 0 <= i < f.len() && f[i] == x;
            assert(s[ranks[i].1 as int] == x);
            assert(s.contains(x));
        }
        if order::sorted_set(s).contains(x) {
            assert(s.contains(x));
            let i = choose|i: int| 0 <= i < s.len() && s[i] == x;
            assert(all[i] == (x, i as nat));
            assert(all.contains((x, i as nat)));
            assert(ranks.contains((x, i as nat)));
            let j = choose|j: int| 0 <= j < ranks.len() && ranks[j] == (x, i as nat);
            assert(f[j] == x);
        }
    }
    order::lemma_ascending_unique(f, order::sorted_set(s));
}

/// No path occurs twice.
pub open spec fn distinct_paths(
    candidates: Seq<(Seq<char>, Seq<(Seq<char>, Seq<char>)>)>,
) -> bool {
    order::firsts(candidates).no_duplicates()
}

proof fn lemma_group_distinct(
    candidates: Seq<(Seq<char>, Seq<(Seq<char>, Seq<char>)>)>,
    canon: Seq<char>,
)
    requires
        distinct_paths(candidates),
    ensures
        distinct_paths(order::under(records::canonical_pairs(candidates), canon)),
        forall|x: (Seq<char>, Seq<(Seq<char>, Seq<char>)>)| #[trigger]
            order::under(records::canonical_pairs(candidates), canon).contains(x)
                <==> candidates.contains(x) && json::compact_json(x.1) == canon,
    decreases candidates.len(),
{
    let pairs = records::canonical_pairs(candidates);
    let group = order::under(pairs, canon);
    assert forall|x: (Seq<char>, Seq<(Seq<char>, Seq<char>)>)| #[trigger]
        group.contains(x) <==> candidates.contains(x) && json::compact_json(x.1) == canon by {
        lemma_under_contains(pairs, canon, x);
        if pairs.contains((canon, x)) {
            let i = choose|i: int| 0 <= i < pairs.len() && pairs[i] == (canon, x);
            assert(candidates[i] == x);
        }
        if candidates.contains(x) && json::compact_json(x.1) == canon {
            let i = choose|i: int| 0 <= i < candidates.len() && candidates[i] == x;
            assert(pairs[i] == (canon, x));
        }
    }
    if candidates.len() > 0 {
        let d = candidates.drop_last();
        let last = candidates.last();
        assert(order::firsts(d).no_duplicates()) by {
            assert forall|i: int, j: int| 0 <= i < d.len() && 0 <= j < d.len() && i
                != j implies order::firsts(d)[i] != order::firsts(d)[j] by {
                assert(order::firsts(candidates)[i] != order::firsts(candidates)[j]);
            }
        }
        lemma_group_distinct(d, canon);
        assert(pairs.drop_last() =~= records::canonical_pairs(d));
        let before = order::under(records::canonical_pairs(d), canon);
        if json::compact_json(last.1) == canon {
            assert(group == before.push(last));
            let f = order::firsts(group);
            assert forall|i: int, j: int| 0 <= i < f.len() && 0 <= j < f.len() && i != j implies f[i]
                != f[j] by {
                if i < before.len() && j < before.len() {
                    assert(order::firsts(before)[i] != order::firsts(before)[j]);
                } else {
                    let m = if i < before.len() {
                        i
                    } else {
                        j
                    };
                    assert(before.contains(before[m]));
                    assert(d.contains(before[m]));
                    let n = choose|n: int| 0 <= n < d.len() && d[n] == before[m];
                    assert(order::firsts(candidates)[n] != order::firsts(
                        candidates,
                    )[candidates.len() - 1]);
                }
            }
        }
    }
}

/// The record of equal schemas does not depend on their order.
proof fn lemma_merged_record_same(
    a: Seq<(Seq<char>, Seq<(Seq<char>, Seq<char>)>)>,
    b: Seq<(Seq<char>, Seq<(Seq<char>, Seq<char>)>)>,
)
    requires
        a.len() > 0,
        distinct_paths(a),
        distinct_paths(b),
        same_elements(a, b),
    ensures
        records::merged_record(a) == records::merged_record(b),
{
    let p = order::firsts(a);
    let q = order::firsts(b);
    assert forall|x: Seq<char>| #[trigger] p.contains(x) <==> q.contains(x) by {
        if p.contains(x) {
            let i = choose|i: int| 0 <= i < p.len() && p[i] == x;
            assert(a.contains(a[i]));
            assert(b.contains(a[i]));
            let j = choose|j: int| 0 <= j < b.len() && b[j] == a[i];
            assert(q[j] == x);
        }
        if q.contains(x) {
            let i = choose|i: int| 0 <= i < q.len() && q[i] == x;
            assert(b.contains(b[i]));
            assert(a.contains(b[i]));
            let j = choose|j: int| 0 <= j < a.len() && a[j] == b[i];
            assert(p[j] == x);
        }
    }
    lemma_sorted_same(p, q);
    lemma_ranked_distinct(p);
    lemma_ranked_distinct(q);
    order::lemma_ranked(p);
    assert(a.contains(a[0]));
    assert(b.contains(a[0]));
    order::lemma_ranked(q);
    let r = order::ranked(p);
    let s = order::ranked(q);
    assert(order::firsts(r)[0] == r[0].0);
    assert(order::firsts(s)[0] == s[0].0);
    let x = a[r[0].1 as int];
    let y = b[s[0].1 as int];
    assert(x.0 == y.0);
    assert(a.contains(x));
    assert(b.contains(x));
    let j = choose|j: int| 0 <= j < b.len() && b[j] == x;
    if j != s[0].1 {
        assert(q[j] != q[s[0].1 as int]);
    }
}

/// Merging does not depend on the order of the candidates.
pub proof fn lemma_merged_same(
    a: Seq<(Seq<char>, Seq<(Seq<char>, Seq<char>)>)>,
    b: Seq<(Seq<char>, Seq<(Seq<char>, Seq<char>)>)>,
)
    requires
        distinct_paths(a),
        distinct_paths(b),
        same_elements(a, b),
    ensures
        records::merged(a) == records::merged(b),
{
    let p = records::canonical_pairs(a);
    let q = records::canonical_pairs(b);
    assert forall|c: Seq<char>| #[trigger] order::firsts(p).contains(c) <==> order::firsts(
        q,
    ).contains(c) by {
        if order::firsts(p).contains(c) {
            let i = choose|i: int| 0 <= i < p.len() && order::firsts(p)[i] == c;
            assert(a.contains(a[i]));
            assert(b.contains(a[i]));
            let j = choose|j: int| 0 <= j < b.len() && b[j] == a[i];
            assert(order::firsts(q)[j] == c);
        }
        if order::firsts(q).contains(c) {
            let i = choose|i: int| 0 <= i < q.len() && order::firsts(q)[i] == c;
            assert(b.contains(b[i]));
            assert(a.contains(b[i]));
            let j = choose|j: int| 0 <= j < a.len() && a[j] == b[i];
            assert(order::firsts(p)[j] == c);
        }
    }
    lemma_sorted_same(order::firsts(p), order::firsts(q));
    let canons = order::sorted_set(order::firsts(p));
    order::lemma_sorted_set(order::firsts(p));
    let l = records::merged(a);
    let r = records::merged(b);
    assert forall|i: int| 0 <= i < canons.len() implies l[i] == r[i] by {
        let c = canons[i];
        assert(canons.contains(c));
        order::lemma_under_nonempty(p, c);
        lemma_group_distinct(a, c);
        lemma_group_distinct(b, c);
        assert(same_elements(order::under(p, c), order::under(q, c)));
        lemma_merged_record_same(order::under(p, c), order::under(q, c));
    }
    assert(l =~= r);
}

/// The records of items depend on the set of their positions only.
proof fn lemma_item_records_same(
    base: Seq<char>,
    schemas: Seq<(Seq<char>, Seq<(Seq<char>, Seq<char>)>)>,
    a: Seq<(Seq<char>, Seq<nat>)>,
    b: Seq<(Seq<char>, Seq<nat>)>,
    container: bool,
)
    requires
        same_elements(a, b),
    ensures
        records::item_records(base, schemas, a, container) == records::item_records(
            base,
            schemas,
            b,
            container,
        ),
{
    assert forall|c: Seq<char>| #[trigger] records::positions(a, c) == records::positions(b, c) by {
        let u = order::under(a, c);
        let w = order::under(b, c);
        assert forall|x: Seq<nat>| #[trigger] u.contains(x) <==> w.contains(x) by {
            lemma_under_contains(a, c, x);
            lemma_under_contains(b, c, x);
            assert(a.contains((c, x)) <==> b.contains((c, x)));
        }
        lemma_sorted_same(u, w);
    }
    lemma_variant_keys_same(schemas, a, b);
    assert(records::variants(base, schemas, a) =~= records::variants(base, schemas, b));
}

proof fn lemma_variant_keys_same(
    schemas: Seq<(Seq<char>, Seq<(Seq<char>, Seq<char>)>)>,
    a: Seq<(Seq<char>, Seq<nat>)>,
    b: Seq<(Seq<char>, Seq<nat>)>,
)
    requires
        forall|c: Seq<char>| #[trigger] records::positions(a, c) == records::positions(b, c),
    ensures
        records::variant_keys(schemas, a) == records::variant_keys(schemas, b),
    decreases schemas.len(),
{
    if schemas.len() > 0 {
        lemma_variant_keys_same(schemas.drop_last(), a, b);
    }
}

/// Chains of keys that are not empty.
pub open spec fn placed(occs: Seq<Occ<Seq<Seq<char>>>>) -> bool {
    forall|i: int| 0 <= i < occs.len() ==> (#[trigger] occs[i]).at.len() > 0
}

proof fn lemma_placed_prefix(occs: Seq<Occ<Seq<Seq<char>>>>)
    requires
        placed(occs),
        occs.len() > 0,
    ensures
        placed(occs.drop_last()),
        occs.last().at.len() > 0,
{
    let d = occs.drop_last();
    assert forall|i: int| 0 <= i < d.len() implies (#[trigger] d[i]).at.len() > 0 by {
        assert(occs[i].at.len() > 0);
    }
    assert(occs[occs.len() - 1].at.len() > 0);
}

/// Roles and paths.
pub proof fn lemma_located_role(
    outdir: Seq<char>,
    occs: Seq<Occ<Seq<Seq<char>>>>,
    role: Role,
)
    requires
        placed(occs),
    ensures
        walk::of_role(places::all_located(outdir, occs), role) == places::all_located(
            outdir,
            walk::of_role(occs, role),
        ),
        placed(walk::of_role(occs, role)),
    decreases occs.len(),
{
    let there = places::all_located(outdir, occs);
    if occs.len() == 0 {
        assert(places::all_located(outdir, walk::of_role(occs, role)) =~= Seq::empty());
    } else {
        let d = occs.drop_last();
        lemma_placed_prefix(occs);
        lemma_located_role(outdir, d, role);
        assert(there.drop_last() =~= places::all_located(outdir, d));
        assert(there.last() == places::located(outdir, occs.last()));
        if occs.last().role == role {
            let kept = walk::of_role(d, role);
            assert(places::all_located(outdir, kept.push(occs.last())) =~= places::all_located(
                outdir,
                kept,
            ).push(there.last()));
            assert(placed(kept.push(occs.last())));
        }
    }
}

/// What stands at a place stands at its path.
pub proof fn lemma_located_under(
    outdir: Seq<char>,
    occs: Seq<Occ<Seq<Seq<char>>>>,
    place: Seq<Seq<char>>,
)
    requires
        placed(occs),
        place.len() > 0,
    ensures
        order::under(
            records::place_pairs(places::all_located(outdir, occs)),
            path::reference(outdir, place),
        ) == order::under(records::place_pairs(occs), place),
        order::under(
            records::place_items(places::all_located(outdir, occs)),
            path::reference(outdir, place),
        ) == order::under(records::place_items(occs), place),
    decreases occs.len(),
{
    let there = places::all_located(outdir, occs);
    if occs.len() == 0 {
        assert(records::place_pairs(there) =~= Seq::empty());
        assert(records::place_items(there) =~= Seq::empty());
        assert(records::place_pairs(occs) =~= Seq::empty());
        assert(records::place_items(occs) =~= Seq::empty());
    } else {
        let d = occs.drop_last();
        let o = occs.last();
        lemma_placed_prefix(occs);
        lemma_located_under(outdir, d, place);
        assert(there.drop_last() =~= places::all_located(outdir, d));
        assert(records::place_pairs(there).drop_last() =~= records::place_pairs(
            places::all_located(outdir, d),
        ));
        assert(records::place_items(there).drop_last() =~= records::place_items(
            places::all_located(outdir, d),
        ));
        assert(records::place_pairs(occs).drop_last() =~= records::place_pairs(d));
        assert(records::place_items(occs).drop_last() =~= records::place_items(d));
        if path::reference(outdir, o.at) == path::reference(outdir, place) {
            path::law_reference_paths_are_distinct(outdir, o.at, place);
        }
    }
}

/// A path that holds something is the path of a place that does.
pub proof fn lemma_located_firsts(
    outdir: Seq<char>,
    occs: Seq<Occ<Seq<Seq<char>>>>,
    base: Seq<char>,
)
    requires
        placed(occs),
    ensures
        order::firsts(records::place_pairs(places::all_located(outdir, occs))).contains(base)
            <==> exists|p: Seq<Seq<char>>| #[trigger]
            order::firsts(records::place_pairs(occs)).contains(p) && p.len() > 0 && base
                == path::reference(outdir, p),
        order::firsts(records::place_items(occs)) == order::firsts(records::place_pairs(occs)),
{
    let here = order::firsts(records::place_pairs(occs));
    let there = order::firsts(records::place_pairs(places::all_located(outdir, occs)));
    assert(order::firsts(records::place_items(occs)) =~= here);
    if there.contains(base) {
        let i = choose|i: int| 0 <= i < there.len() && there[i] == base;
        assert(occs[i].at.len() > 0);
        assert(here[i] == occs[i].at);
        assert(here.contains(occs[i].at));
    }
    if exists|p: Seq<Seq<char>>| #[trigger]
        here.contains(p) && p.len() > 0 && base == path::reference(outdir, p) {
        let p = choose|p: Seq<Seq<char>>| #[trigger]
            here.contains(p) && p.len() > 0 && base == path::reference(outdir, p);
        let i = choose|i: int| 0 <= i < here.len() && here[i] == p;
        assert(there[i] == base);
    }
}

/// What the streamed side knows of a walk.
pub open spec fn streams(
    t: Tables<String, String>,
    outdir: Seq<char>,
    occs: Seq<Occ<Seq<Seq<char>>>>,
) -> bool {
    &&& placed(occs)
    &&& places::all_apart(occs)
    &&& streamed_schemas::tables_of(t, places::all_located(outdir, occs))
}

/// Places of distinct chains have distinct files.
pub proof fn lemma_json_file_injective(a: Seq<char>, b: Seq<char>)
    requires
        path::json_file(a) == path::json_file(b),
    ensures
        a == b,
{
    assert(path::json_file(a).len() == a.len() + ".json"@.len());
    assert(path::json_file(b).len() == b.len() + ".json"@.len());
    assert(a =~= path::json_file(a).take(a.len() as int));
    assert(b =~= path::json_file(b).take(a.len() as int));
}

/// The candidates of streamed objects are those of the objects of the walk.
pub proof fn lemma_candidates_same(
    t: Tables<String, String>,
    outdir: Seq<char>,
    occs: Seq<Occ<Seq<Seq<char>>>>,
)
    requires
        streams(t, outdir, occs),
    ensures
        same_elements(
            records::object_candidates(outdir, walk::of_role(occs, Role::Object)),
            streamed::streamed_candidates(t),
        ),
        distinct_paths(records::object_candidates(outdir, walk::of_role(occs, Role::Object))),
        distinct_paths(streamed::streamed_candidates(t)),
{
    let there = places::all_located(outdir, occs);
    let objs = walk::of_role(occs, Role::Object);
    let a = records::object_candidates(outdir, objs);
    let b = streamed::streamed_candidates(t);
    let all = order::firsts(records::place_pairs(objs));
    let spots = order::sorted_set(all);
    let bases = t.object_totals.keys();
    lemma_located_role(outdir, occs, Role::Object);
    order::lemma_sorted_set(all);
    assert forall|i: int| 0 <= i < spots.len() implies (#[trigger] spots[i]).len() > 0
        && all.contains(spots[i]) by {
        assert(spots.contains(spots[i]));
        assert(all.contains(spots[i]));
        let j = choose|j: int| 0 <= j < all.len() && all[j] == spots[i];
        assert(objs[j].at.len() > 0);
    }
    assert forall|i: int, j: int| 0 <= i < a.len() && 0 <= j < a.len() && i != j implies order::firsts(
        a,
    )[i] != order::firsts(a)[j] by {
        if order::firsts(a)[i] == order::firsts(a)[j] {
            lemma_json_file_injective(
                path::reference(outdir, spots[i]),
                path::reference(outdir, spots[j]),
            );
            path::law_reference_paths_are_distinct(outdir, spots[i], spots[j]);
            if i < j {
                order::lemma_before_excludes(spots[i], spots[j]);
            } else {
                order::lemma_before_excludes(spots[j], spots[i]);
            }
        }
    }
    assert forall|i: int, j: int| 0 <= i < b.len() && 0 <= j < b.len() && i != j implies order::firsts(
        b,
    )[i] != order::firsts(b)[j] by {
        if order::firsts(b)[i] == order::firsts(b)[j] {
            lemma_json_file_injective(bases[i], bases[j]);
            if i < j {
                order::lemma_before_excludes(bases[i], bases[j]);
            } else {
                order::lemma_before_excludes(bases[j], bases[i]);
            }
        }
    }
    assert forall|i: int| 0 <= i < spots.len() implies #[trigger] a[i] == (
        path::json_file(path::reference(outdir, spots[i])),
        streamed::streamed_schema(
            t,
            path::reference(outdir, spots[i]),
            facts::objects_at(there, path::reference(outdir, spots[i])).len() as int,
        ),
    ) by {
        let base = path::reference(outdir, spots[i]);
        lemma_located_under(outdir, objs, spots[i]);
        streamed_schemas::lemma_streamed_schema(t, there, base);
        assert(path::child_prefix(outdir, spots[i]) =~= base + "/"@);
    }
    assert forall|x: (Seq<char>, Seq<(Seq<char>, Seq<char>)>)| #[trigger]
        a.contains(x) <==> b.contains(x) by {
        if a.contains(x) {
            let i = choose|i: int| 0 <= i < a.len() && a[i] == x;
            let base = path::reference(outdir, spots[i]);
            lemma_located_firsts(outdir, objs, base);
            assert(all.contains(spots[i]));
            order::lemma_under_nonempty(records::place_pairs(places::all_located(outdir, objs)), base);
            streamed_schemas::lemma_totals(t, there, base);
            assert(t.object_totals.map().contains_key(base));
            let j = bases.index_of(base);
            assert(bases[j] == base);
            assert(b[j] == x);
        }
        if b.contains(x) {
            let j = choose|j: int| 0 <= j < b.len() && b[j] == x;
            let base = bases[j];
            assert(bases.contains(base));
            assert(t.object_totals.map().contains_key(base));
            streamed_schemas::lemma_totals(t, there, base);
            order::lemma_under_nonempty(records::place_pairs(places::all_located(outdir, objs)), base);
            lemma_located_firsts(outdir, objs, base);
            let p = choose|p: Seq<Seq<char>>| #[trigger]
                all.contains(p) && p.len() > 0 && base == path::reference(outdir, p);
            assert(spots.contains(p));
            let i = choose|i: int| 0 <= i < spots.len() && spots[i] == p;
            assert(a[i] == x);
        }
    }
}

/// Something at the path `base` has the position `index`.
pub open spec fn has_position(occs: Seq<Occ<Seq<char>>>, base: Seq<char>, index: Seq<nat>) -> bool {
    exists|j: int|
        0 <= j < occs.len() && (#[trigger] occs[j]).at == base && occs[j].indexes == index
}

/// Items at one path have distinct positions.
pub proof fn lemma_distinct_positions(occs: Seq<Occ<Seq<char>>>, role: Role, base: Seq<char>)
    requires
        places::all_apart(occs),
    ensures
        streamed_schemas::distinct_positions(facts::items_at(occs, role, base)),
        forall|i: int|
            0 <= i < facts::items_at(occs, role, base).len() ==> has_position(
                occs,
                base,
                (#[trigger] facts::items_at(occs, role, base)[i]).0,
            ),
    decreases occs.len(),
{
    let items = facts::items_at(occs, role, base);
    if occs.len() == 0 {
        assert(records::place_items(walk::of_role(occs, role)) =~= Seq::empty());
    } else {
        let d = occs.drop_last();
        let o = occs.last();
        let n = occs.len() - 1;
        assert(places::all_apart(d)) by {
            assert forall|i: int, j: int| 0 <= i < j < d.len() implies !places::same_spot(
                #[trigger] d[i],
                #[trigger] d[j],
            ) by {
                assert(!places::same_spot(occs[i], occs[j]));
            }
        }
        lemma_distinct_positions(d, role, base);
        facts::lemma_items_at_last(occs, role, base);
        let before = facts::items_at(d, role, base);
        assert forall|i: int| 0 <= i < items.len() implies has_position(
            occs,
            base,
            (#[trigger] items[i]).0,
        ) by {
            if i < before.len() {
                assert(items[i] == before[i]);
                assert(has_position(d, base, before[i].0));
                let j = choose|j: int|
                    0 <= j < d.len() && (#[trigger] d[j]).at == base && d[j].indexes
                        == before[i].0;
                assert(occs[j] == d[j]);
            } else {
                assert(occs[n] == o);
            }
        }
        assert forall|i: int, j: int| 0 <= i < j < items.len() implies (#[trigger] items[i]).0 != (
        #[trigger] items[j]).0 by {
            if j < before.len() {
                assert(before[i].0 != before[j].0);
            } else {
                assert(items[i] == before[i]);
                assert(has_position(d, base, before[i].0));
                let m = choose|m: int|
                    0 <= m < d.len() && (#[trigger] d[m]).at == base && d[m].indexes
                        == before[i].0;
                assert(!places::same_spot(occs[m], occs[n]));
            }
        }
    }
}

pub proof fn lemma_located_apart(outdir: Seq<char>, occs: Seq<Occ<Seq<Seq<char>>>>)
    requires
        placed(occs),
        places::all_apart(occs),
    ensures
        places::all_apart(places::all_located(outdir, occs)),
{
    let there = places::all_located(outdir, occs);
    assert forall|i: int, j: int| 0 <= i < j < there.len() implies !places::same_spot(
        #[trigger] there[i],
        #[trigger] there[j],
    ) by {
        assert(occs[i].at.len() > 0 && occs[j].at.len() > 0);
        assert(!places::same_spot(occs[i], occs[j]));
        if there[i].at == there[j].at {
            path::law_reference_paths_are_distinct(outdir, occs[i].at, occs[j].at);
        }
    }
}

/// The records of the items at one path.
pub open spec fn base_records(
    t: Tables<String, String>,
    rank: nat,
    base: Seq<char>,
    container: bool,
) -> Seq<Rec> {
    records::item_records(
        base,
        streamed::stored_schemas(t, (rank, base)),
        streamed::stored_refs(t, (rank, base)),
        container,
    )
}

pub proof fn lemma_place_records_same(
    t: Tables<String, String>,
    outdir: Seq<char>,
    occs: Seq<Occ<Seq<Seq<char>>>>,
    role: Role,
    place: Seq<Seq<char>>,
    container: bool,
)
    requires
        streams(t, outdir, occs),
        role != Role::Object,
        place.len() > 0,
    ensures
        records::place_records(outdir, walk::of_role(occs, role), place, container)
            == base_records(
            t,
            tables::role_rank(role),
            path::reference(outdir, place),
            container,
        ),
{
    let there = places::all_located(outdir, occs);
    let base = path::reference(outdir, place);
    let kept = walk::of_role(occs, role);
    lemma_located_role(outdir, occs, role);
    lemma_located_under(outdir, kept, place);
    lemma_located_apart(outdir, occs);
    lemma_distinct_positions(there, role, base);
    let items = order::under(records::place_items(kept), place);
    assert(items == facts::items_at(there, role, base));
    assert(path::child_prefix(outdir, place) =~= base + "/"@);
    streamed_schemas::lemma_stored_schemas(t, there, role, base);
    let a = records::item_refs(base + "/"@, items);
    let b = streamed::stored_refs(t, (tables::role_rank(role), base));
    assert forall|x: (Seq<char>, Seq<nat>)| #[trigger] a.contains(x) <==> b.contains(x) by {
        streamed_schemas::lemma_stored_refs(t, there, role, base, x);
    }
    lemma_item_records_same(
        base,
        records::distinct_rows(records::item_rows(base + "/"@, items)),
        a,
        b,
        container,
    );
}

/// The records of several places are those of each.
proof fn lemma_places_records(
    outdir: Seq<char>,
    occs: Seq<Occ<Seq<Seq<char>>>>,
    spots: Seq<Seq<Seq<char>>>,
    container: bool,
    r: Rec,
)
    ensures
        records::places_records(outdir, occs, spots, container).contains(r) <==> exists|i: int|
            0 <= i < spots.len() && records::place_records(
                outdir,
                occs,
                #[trigger] spots[i],
                container,
            ).contains(r),
    decreases spots.len(),
{
    if spots.len() > 0 {
        let d = spots.drop_last();
        lemma_places_records(outdir, occs, d, container, r);
        let a = records::places_records(outdir, occs, d, container);
        let b = records::place_records(outdir, occs, spots.last(), container);
        lemma_concat_contains(a, b, r);
        if a.contains(r) {
            let i = choose|i: int|
                0 <= i < d.len() && records::place_records(
                    outdir,
                    occs,
                    #[trigger] d[i],
                    container,
                ).contains(r);
            assert(spots[i] == d[i]);
        }
        if b.contains(r) {
            assert(spots[spots.len() - 1] == spots.last());
        }
        if exists|i: int|
            0 <= i < spots.len() && records::place_records(
                outdir,
                occs,
                #[trigger] spots[i],
                container,
            ).contains(r) {
            let i = choose|i: int|
                0 <= i < spots.len() && records::place_records(
                    outdir,
                    occs,
                    #[trigger] spots[i],
                    container,
                ).contains(r);
            if i < d.len() {
                assert(d[i] == spots[i]);
            }
        }
    }
}

pub proof fn lemma_concat_contains<A>(a: Seq<A>, b: Seq<A>, x: A)
    ensures
        (a + b).contains(x) <==> a.contains(x) || b.contains(x),
{
    if a.contains(x) {
        let i = choose|i: int| 0 <= i < a.len() && a[i] == x;
        assert((a + b)[i] == x);
    }
    if b.contains(x) {
        let i = choose|i: int| 0 <= i < b.len() && b[i] == x;
        assert((a + b)[a.len() + i] == x);
    }
    if (a + b).contains(x) {
        let i = choose|i: int| 0 <= i < (a + b).len() && (a + b)[i] == x;
        if i < a.len() {
            assert(a[i] == x);
        } else {
            assert(b[i - a.len()] == x);
        }
    }
}

pub proof fn lemma_bases_records(
    t: Tables<String, String>,
    rank: nat,
    bases: Seq<Seq<char>>,
    container: bool,
    r: Rec,
)
    ensures
        streamed::bases_records(t, rank, bases, container).contains(r) <==> exists|i: int|
            0 <= i < bases.len() && base_records(t, rank, #[trigger] bases[i], container).contains(
                r,
            ),
    decreases bases.len(),
{
    if bases.len() > 0 {
        let d = bases.drop_last();
        lemma_bases_records(t, rank, d, container, r);
        let a = streamed::bases_records(t, rank, d, container);
        let b = base_records(t, rank, bases.last(), container);
        lemma_concat_contains(a, b, r);
        if a.contains(r) {
            let i = choose|i: int|
                0 <= i < d.len() && base_records(t, rank, #[trigger] d[i], container).contains(r);
            assert(bases[i] == d[i]);
        }
        if b.contains(r) {
            assert(bases[bases.len() - 1] == bases.last());
        }
        if exists|i: int|
            0 <= i < bases.len() && base_records(t, rank, #[trigger] bases[i], container).contains(
                r,
            ) {
            let i = choose|i: int|
                0 <= i < bases.len() && base_records(
                    t,
                    rank,
                    #[trigger] bases[i],
                    container,
                ).contains(r);
            if i < d.len() {
                assert(d[i] == bases[i]);
            }
        }
    }
}

/// The paths of stored items are the paths of items.
pub proof fn lemma_item_bases(
    t: Tables<String, String>,
    occs: Seq<Occ<Seq<char>>>,
    role: Role,
    base: Seq<char>,
)
    requires
        streamed_schemas::tables_of(t, occs),
        role != Role::Object,
    ensures
        streamed::item_bases(t, tables::role_rank(role)).contains(base) <==> facts::items_at(
            occs,
            role,
            base,
        ).len() > 0,
{
    let rank = tables::role_rank(role);
    let log = recorder::log_of(occs);
    let keys = t.item_schema_counts.keys();
    let firsts = order::firsts(keys);
    let rows = records::item_rows(base + "/"@, facts::items_at(occs, role, base));
    order::lemma_sorted_set(order::under(firsts, rank));
    lemma_under_contains(firsts, rank, base);
    if firsts.contains((rank, base)) {
        let i = choose|i: int| 0 <= i < firsts.len() && firsts[i] == (rank, base);
        let canon = keys[i].1;
        assert(keys.contains(keys[i]));
        assert(t.item_schema_counts.map().contains_key(((rank, base), canon)));
        facts::lemma_log_items(occs, role, base, canon);
        order::lemma_under_nonempty(log.items, ((rank, base), canon));
        order::lemma_under_nonempty(rows, canon);
        assert(rows.len() > 0);
    }
    if facts::items_at(occs, role, base).len() > 0 {
        let canon = rows[0].0;
        assert(order::firsts(rows)[0] == canon);
        assert(order::firsts(rows).contains(canon));
        facts::lemma_log_items(occs, role, base, canon);
        order::lemma_under_nonempty(log.items, ((rank, base), canon));
        order::lemma_under_nonempty(rows, canon);
        let k = ((rank, base), canon);
        assert(t.item_schema_counts.map().contains_key(k));
        let i = keys.index_of(k);
        assert(keys[i] == k);
        assert(firsts[i] == (rank, base));
        assert(firsts.contains((rank, base)));
    }
}

/// The records of streamed items are those of the items of the walk.
proof fn lemma_items_same(
    t: Tables<String, String>,
    outdir: Seq<char>,
    occs: Seq<Occ<Seq<Seq<char>>>>,
    role: Role,
)
    requires
        streams(t, outdir, occs),
        role != Role::Object,
    ensures
        same_elements(
            records::collection_records(
                outdir,
                walk::of_role(occs, role),
                role == Role::ArrayItem,
            ),
            streamed::streamed_item_records(t, role),
        ),
{
    let there = places::all_located(outdir, occs);
    let kept = walk::of_role(occs, role);
    let container = role == Role::ArrayItem;
    let rank = tables::role_rank(role);
    let all = order::firsts(records::place_items(kept));
    let spots = order::sorted_set(all);
    let bases = streamed::item_bases(t, rank);
    let a = records::collection_records(outdir, kept, container);
    let b = streamed::streamed_item_records(t, role);
    lemma_located_role(outdir, occs, role);
    order::lemma_sorted_set(all);
    assert forall|i: int| 0 <= i < spots.len() implies (#[trigger] spots[i]).len() > 0 by {
        assert(spots.contains(spots[i]));
        assert(all.contains(spots[i]));
        let j = choose|j: int| 0 <= j < all.len() && all[j] == spots[i];
        assert(kept[j].at.len() > 0);
    }
    assert forall|r: Rec| #[trigger] a.contains(r) <==> b.contains(r) by {
        lemma_places_records(outdir, kept, spots, container, r);
        lemma_bases_records(t, rank, bases, container, r);
        if a.contains(r) {
            let i = choose|i: int|
                0 <= i < spots.len() && records::place_records(
                    outdir,
                    kept,
                    #[trigger] spots[i],
                    container,
                ).contains(r);
            let base = path::reference(outdir, spots[i]);
            lemma_place_records_same(t, outdir, occs, role, spots[i], container);
            assert(spots.contains(spots[i]));
            assert(all.contains(spots[i]));
            order::lemma_under_nonempty(records::place_items(kept), spots[i]);
            lemma_located_under(outdir, kept, spots[i]);
            lemma_item_bases(t, there, role, base);
            let j = choose|j: int| 0 <= j < bases.len() && bases[j] == base;
            assert(base_records(t, rank, bases[j], container).contains(r));
        }
        if b.contains(r) {
            let j = choose|j: int|
                0 <= j < bases.len() && base_records(
                    t,
                    rank,
                    #[trigger] bases[j],
                    container,
                ).contains(r);
            let base = bases[j];
            assert(bases.contains(base));
            lemma_item_bases(t, there, role, base);
            let located = places::all_located(outdir, kept);
            order::lemma_under_nonempty(records::place_items(located), base);
            lemma_located_firsts(outdir, kept, base);
            assert(order::firsts(records::place_items(located)) =~= order::firsts(
                records::place_pairs(located),
            ));
            let p = choose|p: Seq<Seq<char>>| #[trigger]
                order::firsts(records::place_pairs(kept)).contains(p) && p.len() > 0 && base
                    == path::reference(outdir, p);
            assert(spots.contains(p));
            let i = choose|i: int| 0 <= i < spots.len() && spots[i] == p;
            lemma_place_records_same(t, outdir, occs, role, spots[i], container);
            assert(records::place_records(outdir, kept, spots[i], container).contains(r));
        }
    }
}

/// The records of streamed objects are the records of those objects read at once.
pub proof fn law_streamed_records_are_the_same(
    t: Tables<String, String>,
    outdir: Seq<char>,
    occs: Seq<Occ<Seq<Seq<char>>>>,
)
    requires
        streams(t, outdir, occs),
    ensures
        same_elements(records::built(outdir, occs), streamed::streamed_records(t)),
{
    let o = records::merged(
        records::object_candidates(outdir, walk::of_role(occs, Role::Object)),
    );
    let p = records::merged(streamed::streamed_candidates(t));
    lemma_candidates_same(t, outdir, occs);
    lemma_merged_same(
        records::object_candidates(outdir, walk::of_role(occs, Role::Object)),
        streamed::streamed_candidates(t),
    );
    lemma_items_same(t, outdir, occs, Role::ArrayItem);
    lemma_items_same(t, outdir, occs, Role::RootCollection);
    let a = records::collection_records(outdir, walk::of_role(occs, Role::ArrayItem), true);
    let b = records::collection_records(outdir, walk::of_role(occs, Role::RootCollection), false);
    let c = streamed::streamed_item_records(t, Role::ArrayItem);
    let d = streamed::streamed_item_records(t, Role::RootCollection);
    assert forall|r: Rec| #[trigger]
        records::built(outdir, occs).contains(r) <==> streamed::streamed_records(t).contains(r) by {
        lemma_concat_contains(o + a, b, r);
        lemma_concat_contains(o, a, r);
        lemma_concat_contains(p + c, d, r);
        lemma_concat_contains(p, c, r);
        assert(a.contains(r) <==> c.contains(r));
        assert(b.contains(r) <==> d.contains(r));
    }
}

} // verus!
