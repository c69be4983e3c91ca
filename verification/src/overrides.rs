//! Where several records share a path, the same one is kept however the arrays are ordered.

use crate::index;
use crate::order;
use crate::order::Ordered;
use crate::path;
use crate::places;
use crate::records;
use crate::records::Rec;
use crate::same_records;
use crate::stream;
use crate::streamed;
use crate::tables;
use crate::tables::Tables;
use crate::text;
use crate::walk;
use crate::walk::{Occ, Role};
use vstd::prelude::*;

verus! {

/// The last record that `q` holds of.
pub open spec fn latest(recs: Seq<Rec>, q: spec_fn(Rec) -> bool) -> Option<Rec>
    decreases recs.len(),
{
    if recs.len() == 0 {
        None
    } else if q(recs.last()) {
        Some(recs.last())
    } else {
        latest(recs.drop_last(), q)
    }
}

/// The record has the schema path `p`.
pub open spec fn has_path(p: Seq<char>) -> spec_fn(Rec) -> bool {
    |r: Rec| r.schema_path == p
}

/// The record lists the object path `p`.
pub open spec fn lists_path(p: Seq<char>) -> spec_fn(Rec) -> bool {
    |r: Rec| r.object_paths.contains(p)
}

proof fn lemma_latest(recs: Seq<Rec>, q: spec_fn(Rec) -> bool)
    ensures
        latest(recs, q) matches Some(r) ==> q(r) && recs.contains(r),
        latest(recs, q) is None ==> forall|i: int| 0 <= i < recs.len() ==> !q(#[trigger] recs[i]),
    decreases recs.len(),
{
    if recs.len() > 0 {
        let d = recs.drop_last();
        lemma_latest(d, q);
        if q(recs.last()) {
            assert(recs[recs.len() - 1] == recs.last());
        } else if latest(d, q) is Some {
            let r = latest(d, q)->0;
            let i = choose|i: int| 0 <= i < d.len() && d[i] == r;
            assert(recs[i] == r);
        } else {
            assert forall|i: int| 0 <= i < recs.len() implies !q(#[trigger] recs[i]) by {
                if i < d.len() {
                    assert(d[i] == recs[i]);
                }
            }
        }
    }
}

proof fn lemma_latest_concat(a: Seq<Rec>, b: Seq<Rec>, q: spec_fn(Rec) -> bool)
    ensures
        latest(a + b, q) == if latest(b, q) is Some {
            latest(b, q)
        } else {
            latest(a, q)
        },
    decreases b.len(),
{
    if b.len() == 0 {
        assert(a + b =~= a);
    } else {
        assert((a + b).drop_last() =~= a + b.drop_last());
        assert((a + b).last() == b.last());
        lemma_latest_concat(a, b.drop_last(), q);
    }
}

/// Predicates that agree on the records find the same one.
proof fn lemma_latest_agree(recs: Seq<Rec>, p: spec_fn(Rec) -> bool, q: spec_fn(Rec) -> bool)
    requires
        forall|i: int| 0 <= i < recs.len() ==> p(#[trigger] recs[i]) == q(recs[i]),
    ensures
        latest(recs, p) == latest(recs, q),
    decreases recs.len(),
{
    if recs.len() > 0 {
        let d = recs.drop_last();
        assert forall|i: int| 0 <= i < d.len() implies p(#[trigger] d[i]) == q(d[i]) by {
            assert(d[i] == recs[i]);
        }
        lemma_latest_agree(d, p, q);
        assert(p(recs[recs.len() - 1]) == q(recs[recs.len() - 1]));
    }
}

pub proof fn lemma_last_wins_concat<K, V>(a: Seq<(K, V)>, b: Seq<(K, V)>, k: K)
    ensures
        index::last_wins(b).contains_key(k) ==> index::last_wins(a + b).contains_key(k)
            && index::last_wins(a + b)[k] == index::last_wins(b)[k],
        !index::last_wins(b).contains_key(k) ==> (index::last_wins(a + b).contains_key(k)
            <==> index::last_wins(a).contains_key(k)) && index::last_wins(a + b)[k]
            == index::last_wins(a)[k],
    decreases b.len(),
{
    if b.len() == 0 {
        assert(a + b =~= a);
    } else {
        assert((a + b).drop_last() =~= a + b.drop_last());
        assert((a + b).last() == b.last());
        lemma_last_wins_concat(a, b.drop_last(), k);
    }
}

/// A schema path leads to the schema of the last record with that path.
pub proof fn lemma_definitions_latest(recs: Seq<Rec>, p: Seq<char>)
    ensures
        index::last_wins(index::definition_pairs(recs)).contains_key(p) <==> latest(
            recs,
            has_path(p),
        ) is Some,
        latest(recs, has_path(p)) matches Some(r) ==> index::last_wins(
            index::definition_pairs(recs),
        )[p] == r.schema,
    decreases recs.len(),
{
    if recs.len() > 0 {
        let d = recs.drop_last();
        lemma_definitions_latest(d, p);
        assert(index::definition_pairs(recs).drop_last() =~= index::definition_pairs(d));
    }
}

/// An object path leads to the schema path of the last record that lists it.
pub proof fn lemma_paths_latest(recs: Seq<Rec>, p: Seq<char>)
    ensures
        index::last_wins(index::path_pairs(recs)).contains_key(p) <==> latest(
            recs,
            lists_path(p),
        ) is Some,
        latest(recs, lists_path(p)) matches Some(r) ==> index::last_wins(
            index::path_pairs(recs),
        )[p] == r.schema_path,
    decreases recs.len(),
{
    if recs.len() > 0 {
        let d = recs.drop_last();
        let own = index::paths_of(recs.last());
        lemma_paths_latest(d, p);
        lemma_last_wins_concat(index::path_pairs(d), own, p);
        stream::lemma_last_wins_under(own, p);
        let u = order::under(own, p);
        if recs.last().object_paths.contains(p) {
            let i = choose|i: int|
                0 <= i < recs.last().object_paths.len() && recs.last().object_paths[i] == p;
            assert(own[i] == (p, recs.last().schema_path));
            assert(own.contains((p, recs.last().schema_path)));
            same_records::lemma_under_contains(own, p, recs.last().schema_path);
            assert(u.contains(u[u.len() - 1]));
            same_records::lemma_under_contains(own, p, u.last());
            let j = choose|j: int| 0 <= j < own.len() && own[j] == (p, u.last());
            assert(u.last() == recs.last().schema_path);
        } else if u.len() > 0 {
            assert(u.contains(u[0]));
            same_records::lemma_under_contains(own, p, u[0]);
            let j = choose|j: int| 0 <= j < own.len() && own[j] == (p, u[0]);
            assert(recs.last().object_paths[j] == p);
        }
    }
}

/// `child` lies right below `parent`.
pub open spec fn below(parent: Seq<char>, child: Seq<char>) -> bool {
    exists|s: Seq<char>| !(#[trigger] s.contains('/')) && child == parent + "/"@ + s
}

/// No path twice, and none behind one that lies right below it.
pub open spec fn in_order(bases: Seq<Seq<char>>) -> bool {
    forall|i: int, j: int|
        0 <= i < j < bases.len() ==> #[trigger] bases[i] != #[trigger] bases[j] && !below(
            bases[j],
            bases[i],
        )
}

pub proof fn lemma_one_parent(a: Seq<char>, b: Seq<char>, s: Seq<char>, r: Seq<char>)
    requires
        a + "/"@ + s == b + "/"@ + r,
        !s.contains('/'),
        !r.contains('/'),
    ensures
        a == b,
{
    reveal_strlit("/");
    let t = a + "/"@ + s;
    let m = s.len();
    let n = r.len();
    assert(t[t.len() - m - 1] == '/' && t[t.len() - n - 1] == '/');
    if m < n {
        assert(r[n - m - 1] == t[t.len() - m - 1]);
    } else if n < m {
        assert(s[m - n - 1] == t[t.len() - n - 1]);
    }
    assert(a =~= t.take(t.len() - m - 1));
    assert(b =~= t.take(t.len() - m - 1));
}

proof fn lemma_digits_have_no_slash(n: nat)
    ensures
        !text::decimal(n).contains('/'),
    decreases n,
{
    let t = text::decimal(n);
    if n >= 10 {
        lemma_digits_have_no_slash(n / 10);
        let d = text::decimal(n / 10);
        assert forall|i: int| 0 <= i < t.len() implies t[i] != '/' by {
            if i < d.len() {
                assert(d.contains(d[i]));
                assert(t[i] == d[i]);
            } else {
                assert(t[i] == text::digit(n % 10));
            }
        }
    } else {
        assert forall|i: int| 0 <= i < t.len() implies t[i] != '/' by {
            assert(t[i] == text::digit(n));
        }
    }
}

proof fn lemma_joined_has_no_slash(parts: Seq<Seq<char>>)
    requires
        forall|i: int| 0 <= i < parts.len() ==> !(#[trigger] parts[i]).contains('/'),
    ensures
        !text::joined(parts, "_"@).contains('/'),
    decreases parts.len(),
{
    reveal_strlit("_");
    if parts.len() > 1 {
        let d = parts.drop_last();
        assert forall|i: int| 0 <= i < d.len() implies !(#[trigger] d[i]).contains('/') by {
            assert(d[i] == parts[i]);
        }
        lemma_joined_has_no_slash(d);
        let a = text::joined(d, "_"@);
        let b = parts[parts.len() - 1];
        let t = text::joined(parts, "_"@);
        assert forall|i: int| 0 <= i < t.len() implies t[i] != '/' by {
            if i < a.len() {
                assert(a.contains(a[i]));
            } else if i > a.len() {
                assert(t[i] == b[i - a.len() - 1]);
                assert(b.contains(b[i - a.len() - 1]));
            }
        }
    } else if parts.len() == 1 {
        assert(!parts[0].contains('/'));
    }
}

pub proof fn lemma_stem_has_no_slash(position: Seq<nat>)
    ensures
        !path::file_stem(position).contains('/'),
{
    let parts = path::decimals(position);
    assert forall|i: int| 0 <= i < parts.len() implies !(#[trigger] parts[i]).contains('/') by {
        lemma_digits_have_no_slash(position[i]);
    }
    lemma_joined_has_no_slash(parts);
}

/// The records at `base` list their own paths, each the file of `base` or one right below it.
proof fn lemma_block_paths(
    t: Tables<String, String>,
    rank: nat,
    base: Seq<char>,
    container: bool,
    r: Rec,
)
    requires
        same_records::base_records(t, rank, base, container).contains(r),
    ensures
        r.object_paths == seq![r.schema_path],
        r.schema_path == path::json_file(base) || exists|s: Seq<char>|
            !(#[trigger] s.contains('/')) && r.schema_path == path::json_file(base + "/"@ + s),
{
    let schemas = streamed::stored_schemas(t, (rank, base));
    let refs = streamed::stored_refs(t, (rank, base));
    let all = same_records::base_records(t, rank, base, container);
    let i = choose|i: int| 0 <= i < all.len() && all[i] == r;
    if schemas.len() != 1 {
        let v = records::variants(base, schemas, refs);
        let keys = order::sorted_set(records::variant_keys(schemas, refs));
        let shift: int = if container {
            1
        } else {
            0
        };
        if i >= shift {
            assert(r == v[i - shift]);
            let first = keys[i - shift].0;
            lemma_stem_has_no_slash(first);
            assert(!path::file_stem(first).contains('/'));
        } else {
            assert(r == records::container_record(base));
        }
    }
}

/// The record that decides at a path comes from the last array with such a record.
proof fn lemma_latest_block(
    t: Tables<String, String>,
    rank: nat,
    container: bool,
    bases: Seq<Seq<char>>,
    q: spec_fn(Rec) -> bool,
) -> (i: int)
    ensures
        0 <= i < bases.len() ==> latest(
            same_records::base_records(t, rank, bases[i], container),
            q,
        ) is Some && latest(streamed::bases_records(t, rank, bases, container), q) == latest(
            same_records::base_records(t, rank, bases[i], container),
            q,
        ),
        i < bases.len(),
        i < 0 ==> latest(streamed::bases_records(t, rank, bases, container), q) is None,
        forall|j: int|
            0 <= j < bases.len() && i < j ==> latest(
                same_records::base_records(t, rank, #[trigger] bases[j], container),
                q,
            ) is None,
    decreases bases.len(),
{
    if bases.len() == 0 {
        -1
    } else {
        let d = bases.drop_last();
        let n = bases.len() - 1;
        let last = same_records::base_records(t, rank, bases[n], container);
        lemma_latest_concat(streamed::bases_records(t, rank, d, container), last, q);
        let i = lemma_latest_block(t, rank, container, d, q);
        if latest(last, q) is Some {
            n
        } else {
            assert forall|j: int| 0 <= j < bases.len() && i < j implies latest(
                same_records::base_records(t, rank, #[trigger] bases[j], container),
                q,
            ) is None by {
                if j < n {
                    assert(d[j] == bases[j]);
                }
            }
            i
        }
    }
}

/// The order of the arrays does not matter, as long as none comes behind one right below it.
proof fn lemma_order_does_not_matter(
    t: Tables<String, String>,
    rank: nat,
    container: bool,
    a: Seq<Seq<char>>,
    b: Seq<Seq<char>>,
    p: Seq<char>,
)
    requires
        same_records::same_elements(a, b),
        in_order(a),
        in_order(b),
    ensures
        latest(streamed::bases_records(t, rank, a, container), has_path(p)) == latest(
            streamed::bases_records(t, rank, b, container),
            has_path(p),
        ),
{
    let q = has_path(p);
    let i = lemma_latest_block(t, rank, container, a, q);
    let j = lemma_latest_block(t, rank, container, b, q);
    if i >= 0 {
        assert(a.contains(a[i]));
        assert(b.contains(a[i]));
        let k = choose|k: int| 0 <= k < b.len() && b[k] == a[i];
        assert(latest(same_records::base_records(t, rank, b[k], container), q) is Some);
        assert(k <= j);
    }
    if j >= 0 {
        assert(b.contains(b[j]));
        assert(a.contains(b[j]));
        let k = choose|k: int| 0 <= k < a.len() && a[k] == b[j];
        assert(latest(same_records::base_records(t, rank, a[k], container), q) is Some);
        assert(k <= i);
    }
    if i >= 0 && j >= 0 && a[i] != b[j] {
        let v = a[i];
        let w = b[j];
        let x = same_records::base_records(t, rank, v, container);
        let y = same_records::base_records(t, rank, w, container);
        lemma_latest(x, q);
        lemma_latest(y, q);
        lemma_block_paths(t, rank, v, container, latest(x, q)->0);
        lemma_block_paths(t, rank, w, container, latest(y, q)->0);
        let k = choose|k: int| 0 <= k < b.len() && b[k] == v;
        let m = choose|m: int| 0 <= m < a.len() && a[m] == w;
        assert(k < j && m < i);
        if p == path::json_file(v) {
            if p == path::json_file(w) {
                same_records::lemma_json_file_injective(v, w);
            } else {
                let s = choose|s: Seq<char>|
                    !(#[trigger] s.contains('/')) && p == path::json_file(w + "/"@ + s);
                same_records::lemma_json_file_injective(v, w + "/"@ + s);
                assert(below(b[j], b[k]));
            }
        } else {
            let r = choose|s: Seq<char>|
                !(#[trigger] s.contains('/')) && p == path::json_file(v + "/"@ + s);
            if p == path::json_file(w) {
                same_records::lemma_json_file_injective(v + "/"@ + r, w);
                assert(below(a[i], a[m]));
            } else {
                let s = choose|s: Seq<char>|
                    !(#[trigger] s.contains('/')) && p == path::json_file(w + "/"@ + s);
                same_records::lemma_json_file_injective(v + "/"@ + r, w + "/"@ + s);
                lemma_one_parent(v, w, r, s);
            }
        }
    }
}

proof fn lemma_prefix_before<A: Ordered>(a: Seq<A>, more: Seq<A>)
    requires
        more.len() > 0,
    ensures
        order::lex_before(a, a + more),
    decreases a.len(),
{
    if a.len() > 0 {
        assert((a + more).drop_first() =~= a.drop_first() + more);
        lemma_prefix_before(a.drop_first(), more);
    }
}

/// Paths in ascending order.
proof fn lemma_ascending_in_order(bases: Seq<Seq<char>>)
    requires
        order::ascending(bases),
    ensures
        in_order(bases),
{
    reveal_strlit("/");
    assert forall|i: int, j: int| 0 <= i < j < bases.len() implies #[trigger] bases[i]
        != #[trigger] bases[j] && !below(bases[j], bases[i]) by {
        order::lemma_before_excludes(bases[i], bases[j]);
        if below(bases[j], bases[i]) {
            let s = choose|s: Seq<char>|
                !(#[trigger] s.contains('/')) && bases[i] == bases[j] + "/"@ + s;
            lemma_prefix_before(bases[j], "/"@ + s);
            assert(bases[j] + ("/"@ + s) =~= bases[i]);
            assert(bases[j].before(bases[i]));
            order::lemma_before_excludes(bases[j], bases[i]);
        }
    }
}

/// The paths of places.
pub open spec fn references(outdir: Seq<char>, spots: Seq<Seq<Seq<char>>>) -> Seq<Seq<char>> {
    Seq::new(spots.len(), |i: int| path::reference(outdir, spots[i]))
}

/// The paths of places in ascending order.
proof fn lemma_places_in_order(outdir: Seq<char>, spots: Seq<Seq<Seq<char>>>)
    requires
        order::ascending(spots),
        forall|i: int| 0 <= i < spots.len() ==> (#[trigger] spots[i]).len() > 0,
    ensures
        in_order(references(outdir, spots)),
{
    let bases = references(outdir, spots);
    reveal_strlit("/");
    assert forall|i: int, j: int| 0 <= i < j < bases.len() implies #[trigger] bases[i]
        != #[trigger] bases[j] && !below(bases[j], bases[i]) by {
        let child = spots[i];
        let parent = spots[j];
        order::lemma_before_excludes(child, parent);
        if bases[i] == bases[j] {
            path::law_reference_paths_are_distinct(outdir, child, parent);
        }
        if below(bases[j], bases[i]) {
            let s = choose|s: Seq<char>|
                !(#[trigger] s.contains('/')) && bases[i] == bases[j] + "/"@ + s;
            let d = child.drop_last();
            let key = child.last();
            assert(child =~= d.push(key));
            path::lemma_segment_has_no_slash(key);
            if d.len() > 0 {
                path::lemma_reference_push(outdir, d, key);
                lemma_one_parent(
                    path::reference(outdir, d),
                    bases[j],
                    path::segment(key),
                    s,
                );
                path::law_reference_paths_are_distinct(outdir, d, parent);
                lemma_prefix_before(parent, seq![key]);
                assert(parent + seq![key] =~= child);
                assert(parent.before(child));
                order::lemma_before_excludes(parent, child);
            } else {
                assert(path::segments_of(child) =~= seq![path::segment(key)]);
                assert(text::joined(path::segments_of(child), "/"@) == path::segment(key));
                assert(bases[i] == outdir + "/"@ + path::segment(key));
                lemma_one_parent(outdir, bases[j], path::segment(key), s);
            }
        }
    }
}

/// The records of items, place by place, are those path by path.
proof fn lemma_places_as_bases(
    t: Tables<String, String>,
    outdir: Seq<char>,
    occs: Seq<Occ<Seq<Seq<char>>>>,
    role: Role,
    spots: Seq<Seq<Seq<char>>>,
)
    requires
        same_records::streams(t, outdir, occs),
        role != Role::Object,
        forall|i: int| 0 <= i < spots.len() ==> (#[trigger] spots[i]).len() > 0,
    ensures
        records::places_records(
            outdir,
            walk::of_role(occs, role),
            spots,
            role == Role::ArrayItem,
        ) == streamed::bases_records(
            t,
            tables::role_rank(role),
            references(outdir, spots),
            role == Role::ArrayItem,
        ),
    decreases spots.len(),
{
    if spots.len() > 0 {
        let d = spots.drop_last();
        assert forall|i: int| 0 <= i < d.len() implies (#[trigger] d[i]).len() > 0 by {
            assert(d[i] == spots[i]);
        }
        assert(spots[spots.len() - 1].len() > 0);
        lemma_places_as_bases(t, outdir, occs, role, d);
        same_records::lemma_place_records_same(
            t,
            outdir,
            occs,
            role,
            spots.last(),
            role == Role::ArrayItem,
        );
        assert(references(outdir, spots).drop_last() =~= references(outdir, d));
    }
}

/// For the records of items it does not matter whether places or paths are in order.
proof fn lemma_items_latest_same(
    t: Tables<String, String>,
    outdir: Seq<char>,
    occs: Seq<Occ<Seq<Seq<char>>>>,
    role: Role,
    p: Seq<char>,
)
    requires
        same_records::streams(t, outdir, occs),
        role != Role::Object,
    ensures
        ({
            let a = records::collection_records(
                outdir,
                walk::of_role(occs, role),
                role == Role::ArrayItem,
            );
            let b = streamed::streamed_item_records(t, role);
            latest(a, has_path(p)) == latest(b, has_path(p)) && latest(a, lists_path(p)) == latest(
                b,
                lists_path(p),
            )
        }),
{
    let there = places::all_located(outdir, occs);
    let kept = walk::of_role(occs, role);
    let container = role == Role::ArrayItem;
    let rank = tables::role_rank(role);
    let all = order::firsts(records::place_items(kept));
    let spots = order::sorted_set(all);
    let left = references(outdir, spots);
    let right = streamed::item_bases(t, rank);
    let a = records::collection_records(outdir, kept, container);
    let b = streamed::streamed_item_records(t, role);
    same_records::lemma_located_role(outdir, occs, role);
    order::lemma_sorted_set(all);
    assert forall|i: int| 0 <= i < spots.len() implies (#[trigger] spots[i]).len() > 0 by {
        assert(spots.contains(spots[i]));
        assert(all.contains(spots[i]));
        let j = choose|j: int| 0 <= j < all.len() && all[j] == spots[i];
        assert(kept[j].at.len() > 0);
    }
    order::lemma_sorted_set(order::under(order::firsts(t.item_schema_counts.keys()), rank));
    lemma_places_in_order(outdir, spots);
    lemma_ascending_in_order(right);
    let located = places::all_located(outdir, kept);
    assert(order::firsts(records::place_items(located)) =~= order::firsts(
        records::place_pairs(located),
    ));
    assert forall|base: Seq<char>| #[trigger] left.contains(base) <==> right.contains(base) by {
        same_records::lemma_item_bases(t, there, role, base);
        same_records::lemma_located_firsts(outdir, kept, base);
        order::lemma_under_nonempty(records::place_items(located), base);
        if left.contains(base) {
            let i = choose|i: int| 0 <= i < left.len() && left[i] == base;
            assert(spots.contains(spots[i]));
            assert(all.contains(spots[i]));
        }
        if right.contains(base) {
            let k = choose|k: Seq<Seq<char>>| #[trigger]
                order::firsts(records::place_pairs(kept)).contains(k) && k.len() > 0 && base
                    == path::reference(outdir, k);
            assert(spots.contains(k));
            let i = choose|i: int| 0 <= i < spots.len() && spots[i] == k;
            assert(left[i] == base);
        }
    }
    lemma_places_as_bases(t, outdir, occs, role, spots);
    lemma_order_does_not_matter(t, rank, container, left, right, p);
    lemma_own_paths(t, rank, container, left);
    lemma_own_paths(t, rank, container, right);
    assert forall|i: int| 0 <= i < a.len() implies lists_path(p)(#[trigger] a[i]) == has_path(p)(
        a[i],
    ) by {
        lemma_lists_itself(a[i], p);
    }
    assert forall|i: int| 0 <= i < b.len() implies lists_path(p)(#[trigger] b[i]) == has_path(p)(
        b[i],
    ) by {
        lemma_lists_itself(b[i], p);
    }
    lemma_latest_agree(a, lists_path(p), has_path(p));
    lemma_latest_agree(b, lists_path(p), has_path(p));
}

proof fn lemma_lists_itself(r: Rec, p: Seq<char>)
    requires
        r.object_paths == seq![r.schema_path],
    ensures
        lists_path(p)(r) == has_path(p)(r),
{
    if r.schema_path == p {
        assert(r.object_paths[0] == p);
    }
}

proof fn lemma_own_paths(
    t: Tables<String, String>,
    rank: nat,
    container: bool,
    bases: Seq<Seq<char>>,
)
    ensures
        forall|i: int|
            0 <= i < streamed::bases_records(t, rank, bases, container).len() ==> (
            #[trigger] streamed::bases_records(t, rank, bases, container)[i]).object_paths == seq![
                streamed::bases_records(t, rank, bases, container)[i].schema_path,
            ],
    decreases bases.len(),
{
    if bases.len() > 0 {
        let d = bases.drop_last();
        lemma_own_paths(t, rank, container, d);
        let before = streamed::bases_records(t, rank, d, container);
        let last = same_records::base_records(t, rank, bases.last(), container);
        let whole = streamed::bases_records(t, rank, bases, container);
        assert forall|i: int| 0 <= i < whole.len() implies (#[trigger] whole[i]).object_paths
            == seq![whole[i].schema_path] by {
            if i < before.len() {
                assert(whole[i] == before[i]);
            } else {
                assert(whole[i] == last[i - before.len()]);
                assert(last.contains(whole[i]));
                lemma_block_paths(t, rank, bases.last(), container, whole[i]);
            }
        }
    }
}

/// Streamed or read at once, a path leads to the same schema.
pub proof fn lemma_same_overrides(
    t: Tables<String, String>,
    outdir: Seq<char>,
    occs: Seq<Occ<Seq<Seq<char>>>>,
)
    requires
        same_records::streams(t, outdir, occs),
    ensures
        ({
            let a = records::built(outdir, occs);
            let b = streamed::streamed_records(t);
            index::last_wins(index::definition_pairs(a)) == index::last_wins(
                index::definition_pairs(b),
            ) && index::last_wins(index::path_pairs(a)) == index::last_wins(index::path_pairs(b))
        }),
{
    let a = records::built(outdir, occs);
    let b = streamed::streamed_records(t);
    let mine = records::merged(
        records::object_candidates(outdir, walk::of_role(occs, Role::Object)),
    );
    let c = records::collection_records(outdir, walk::of_role(occs, Role::ArrayItem), true);
    let d = records::collection_records(outdir, walk::of_role(occs, Role::RootCollection), false);
    let e = streamed::streamed_item_records(t, Role::ArrayItem);
    let f = streamed::streamed_item_records(t, Role::RootCollection);
    same_records::lemma_candidates_same(t, outdir, occs);
    same_records::lemma_merged_same(
        records::object_candidates(outdir, walk::of_role(occs, Role::Object)),
        streamed::streamed_candidates(t),
    );
    assert forall|p: Seq<char>|
        #![trigger has_path(p)]
        #![trigger lists_path(p)]
        latest(a, has_path(p)) == latest(b, has_path(p)) && latest(a, lists_path(p)) == latest(
            b,
            lists_path(p),
        ) by {
        lemma_items_latest_same(t, outdir, occs, Role::ArrayItem, p);
        lemma_items_latest_same(t, outdir, occs, Role::RootCollection, p);
        lemma_latest_concat(mine + c, d, has_path(p));
        lemma_latest_concat(mine, c, has_path(p));
        lemma_latest_concat(mine + e, f, has_path(p));
        lemma_latest_concat(mine, e, has_path(p));
        lemma_latest_concat(mine + c, d, lists_path(p));
        lemma_latest_concat(mine, c, lists_path(p));
        lemma_latest_concat(mine + e, f, lists_path(p));
        lemma_latest_concat(mine, e, lists_path(p));
    }
    let v = index::last_wins(index::definition_pairs(a));
    let w = index::last_wins(index::definition_pairs(b));
    assert forall|p: Seq<char>| v.dom().contains(p) == w.dom().contains(p) by {
        lemma_definitions_latest(a, p);
        lemma_definitions_latest(b, p);
    }
    assert forall|p: Seq<char>| #[trigger] v.dom().contains(p) implies v[p] == w[p] by {
        lemma_definitions_latest(a, p);
        lemma_definitions_latest(b, p);
    }
    assert(v =~= w);
    let x = index::last_wins(index::path_pairs(a));
    let y = index::last_wins(index::path_pairs(b));
    assert forall|p: Seq<char>| x.dom().contains(p) == y.dom().contains(p) by {
        lemma_paths_latest(a, p);
        lemma_paths_latest(b, p);
    }
    assert forall|p: Seq<char>| #[trigger] x.dom().contains(p) implies x[p] == y[p] by {
        lemma_paths_latest(a, p);
        lemma_paths_latest(b, p);
    }
    assert(x =~= y);
}

} // verus!
