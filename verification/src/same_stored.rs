//! What is stored of a stream is what is stored of the same values read at once.

use crate::catalog;
use crate::catalog::Stored;
use crate::facts;
use crate::index;
use crate::input;
use crate::json;
use crate::json::Json;
use crate::jsonl;
use crate::order;
use crate::order::Ordered;
use crate::ordmap::{Key, OrdMap};
use crate::overrides;
use crate::path;
use crate::places;
use crate::recorder;
use crate::records;
use crate::records::Rec;
use crate::relations;
use crate::relations::{Context, Relation};
use crate::same_counts;
use crate::same_index;
use crate::same_records;
use crate::statistics;
use crate::streamed;
use crate::streamed::StreamContext;
use crate::streamed_schemas;
use crate::tables;
use crate::tables::Tables;
use crate::walk;
use crate::walk::{Occ, Role};
use vstd::prelude::*;

verus! {

/// Where the rows of objects lead.
spec fn object_lead(c: StreamContext) -> spec_fn(Seq<char>) -> Option<Seq<char>> {
    |base: Seq<char>| streamed::object_target(c, base)
}

/// Where the rows of items lead.
spec fn item_lead(c: StreamContext) -> spec_fn(((nat, Seq<char>), Seq<char>)) -> Option<Seq<char>> {
    |k: ((nat, Seq<char>), Seq<char>)| streamed::item_target(c, k)
}

/// Where the rows of object fields lead.
spec fn field_lead(c: StreamContext) -> spec_fn((Seq<char>, Seq<char>)) -> Option<
    (Seq<char>, Seq<char>),
> {
    |k: (Seq<char>, Seq<char>)| streamed::field_target(c, streamed::object_target(c, k.0), k.1)
}

/// Where the rows of item fields lead.
spec fn item_field_lead(c: StreamContext) -> spec_fn(
    (((nat, Seq<char>), Seq<char>), Seq<char>),
) -> Option<(Seq<char>, Seq<char>)> {
    |k: (((nat, Seq<char>), Seq<char>), Seq<char>)|
        streamed::field_target(c, streamed::item_target(c, k.0), k.1)
}

/// Objects are hit as often as their log entries lead there.
proof fn lemma_hits(
    t: Tables<String, String>,
    outdir: Seq<char>,
    occs: Seq<Occ<Seq<Seq<char>>>>,
    n: int,
    p: Seq<char>,
)
    requires
        same_counts::comparable(t, outdir, occs),
        same_counts::countable(outdir, occs),
        0 <= n <= occs.len(),
    ensures
        ({
            let recs = streamed::streamed_records(t);
            let l = catalog::lookups_of(recs);
            let c = streamed::stream_context(t, recs);
            let log = recorder::log_of(places::all_located(outdir, occs).take(n));
            order::under(statistics::hits(outdir, l, occs.take(n)), p).len() == same_counts::led(
                log.objects,
                object_lead(c),
                p,
            ) + same_counts::led(log.items, item_lead(c), p)
        }),
    decreases n,
{
    let recs = streamed::streamed_records(t);
    let l = catalog::lookups_of(recs);
    let c = streamed::stream_context(t, recs);
    let there = places::all_located(outdir, occs);
    let log = recorder::log_of(there.take(n));
    if n > 0 {
        lemma_hits(t, outdir, occs, n - 1, p);
        let before = recorder::log_of(there.take(n - 1));
        assert(occs.take(n).drop_last() =~= occs.take(n - 1));
        assert(there.take(n).drop_last() =~= there.take(n - 1));
        let o = there[n - 1];
        assert(there.take(n).last() == o);
        assert(occs.take(n).last() == occs[n - 1]);
        let own = recorder::own_log(o);
        let q = same_counts::lemma_resolved(t, outdir, occs, n - 1);
        same_counts::lemma_led_concat(before.objects, own.objects, object_lead(c), p);
        same_counts::lemma_led_concat(before.items, own.items, item_lead(c), p);
        let done = statistics::hits(outdir, l, occs.take(n - 1));
        assert(done.push((q, occs[n - 1].fields)).drop_last() =~= done);
        reveal_with_fuel(same_counts::led, 2);
        if o.role == Role::Object {
            assert(own.objects =~= seq![(o.at, ())]);
            assert(own.items =~= Seq::empty());
            assert(own.objects.drop_last() =~= Seq::empty());
            assert(same_counts::led(own.items, item_lead(c), p) == 0);
            assert(object_lead(c)(o.at) == streamed::object_target(c, o.at));
        } else {
            let k = ((tables::role_rank(o.role), o.at), same_counts::canon_of(o));
            let x = (k, recorder::item_schema(o.at, o.fields));
            assert(own.items =~= seq![x]);
            assert(own.objects =~= Seq::empty());
            assert(own.items.drop_last() =~= Seq::empty());
            assert(same_counts::led(own.objects, object_lead(c), p) == 0);
            assert(item_lead(c)(k) == streamed::item_target(c, k));
        }
    } else {
        assert(occs.take(0) =~= Seq::empty());
        assert(there.take(0) =~= Seq::empty());
    }
}

/// Pairs that lead where hits are.
proof fn lemma_led_hits<K, V, P>(
    pairs: Seq<(K, V)>,
    g: spec_fn(K) -> Option<P>,
    hits: Seq<(P, ())>,
    p: P,
)
    requires
        pairs.len() == hits.len(),
        forall|i: int| 0 <= i < pairs.len() ==> g((#[trigger] pairs[i]).0) == Some(hits[i].0),
    ensures
        same_counts::led(pairs, g, p) == order::under(hits, p).len(),
    decreases pairs.len(),
{
    if pairs.len() > 0 {
        let d = pairs.drop_last();
        let h = hits.drop_last();
        assert forall|i: int| 0 <= i < d.len() implies g((#[trigger] d[i]).0) == Some(h[i].0) by {
            assert(pairs[i] == d[i]);
        }
        lemma_led_hits(d, g, h, p);
        assert(g(pairs[pairs.len() - 1].0) == Some(hits[hits.len() - 1].0));
    }
}

proof fn lemma_led_nowhere<K, V, P>(pairs: Seq<(K, V)>, g: spec_fn(K) -> Option<P>, p: P)
    requires
        forall|i: int| 0 <= i < pairs.len() ==> g((#[trigger] pairs[i]).0) is None,
    ensures
        same_counts::led(pairs, g, p) == 0,
    decreases pairs.len(),
{
    if pairs.len() > 0 {
        let d = pairs.drop_last();
        assert forall|i: int| 0 <= i < d.len() implies g((#[trigger] d[i]).0) is None by {
            assert(pairs[i] == d[i]);
        }
        lemma_led_nowhere(d, g, p);
        assert(g(pairs[pairs.len() - 1].0) is None);
    }
}

/// A field of a stored schema has a stored label.
proof fn lemma_typed(
    t: Tables<String, String>,
    outdir: Seq<char>,
    occs: Seq<Occ<Seq<Seq<char>>>>,
    p: Seq<char>,
    name: Seq<char>,
)
    requires
        same_counts::comparable(t, outdir, occs),
        ({
            let l = catalog::lookups_of(streamed::streamed_records(t));
            l.definitions.contains_key(p) && json::schema_names(l.definitions[p]).contains(name)
        }),
    ensures
        ({
            let recs = streamed::streamed_records(t);
            let l = catalog::lookups_of(recs);
            let c = streamed::stream_context(t, recs);
            c.types.contains_key((p, name)) && index::label_in(l.definitions[p], name) == Some(
                c.types[(p, name)],
            )
        }),
{
    same_counts::lemma_comparable(t, outdir, occs);
    same_index::lemma_kept_label(streamed::streamed_records(t), p, name);
}

/// Fields are hit as often as their log entries lead there.
proof fn lemma_field_hits(
    t: Tables<String, String>,
    outdir: Seq<char>,
    occs: Seq<Occ<Seq<Seq<char>>>>,
    n: int,
    k: (Seq<char>, Seq<char>),
)
    requires
        same_counts::comparable(t, outdir, occs),
        same_counts::countable(outdir, occs),
        0 <= n <= occs.len(),
    ensures
        ({
            let recs = streamed::streamed_records(t);
            let l = catalog::lookups_of(recs);
            let c = streamed::stream_context(t, recs);
            let log = recorder::log_of(places::all_located(outdir, occs).take(n));
            order::under(
                statistics::field_hits(statistics::hits(outdir, l, occs.take(n))),
                k,
            ).len() == same_counts::led(log.fields, field_lead(c), k) + same_counts::led(
                log.item_fields,
                item_field_lead(c),
                k,
            )
        }),
    decreases n,
{
    let recs = streamed::streamed_records(t);
    let l = catalog::lookups_of(recs);
    let c = streamed::stream_context(t, recs);
    let there = places::all_located(outdir, occs);
    if n > 0 {
        lemma_field_hits(t, outdir, occs, n - 1, k);
        let before = recorder::log_of(there.take(n - 1));
        assert(occs.take(n).drop_last() =~= occs.take(n - 1));
        assert(there.take(n).drop_last() =~= there.take(n - 1));
        let o = there[n - 1];
        assert(there.take(n).last() == o);
        assert(occs.take(n).last() == occs[n - 1]);
        let own = recorder::own_log(o);
        let q = same_counts::lemma_resolved(t, outdir, occs, n - 1);
        same_counts::lemma_led_concat(before.fields, own.fields, field_lead(c), k);
        same_counts::lemma_led_concat(before.item_fields, own.item_fields, item_field_lead(c), k);
        let done = statistics::hits(outdir, l, occs.take(n - 1));
        let more = statistics::hits_of_fields(q, o.fields);
        assert(done.push((q, occs[n - 1].fields)).drop_last() =~= done);
        order::lemma_under_concat(statistics::field_hits(done), more, k);
        let counted = !index::is_container(l.definitions[q]);
        assert forall|i: int| 0 <= i < o.fields.len() implies streamed::field_target(
            c,
            same_counts::target(c, o),
            (#[trigger] o.fields[i]).0,
        ) == if counted {
            Some((q, o.fields[i].0))
        } else {
            None
        } by {
            assert(occs[n - 1].fields[i] == o.fields[i]);
            if counted {
                lemma_typed(t, outdir, occs, q, o.fields[i].0);
            }
        }
        if o.role == Role::Object {
            assert(own.item_fields =~= Seq::empty());
            assert(same_counts::led(own.item_fields, item_field_lead(c), k) == 0);
            assert forall|i: int| 0 <= i < own.fields.len() implies field_lead(c)(
                (#[trigger] own.fields[i]).0,
            ) == if counted {
                Some(more[i].0)
            } else {
                None
            } by {
                assert(own.fields[i].0 == (o.at, o.fields[i].0));
            }
            if counted {
                lemma_led_hits(own.fields, field_lead(c), more, k);
            } else {
                lemma_led_nowhere(own.fields, field_lead(c), k);
            }
        } else {
            assert(own.fields =~= Seq::empty());
            assert(same_counts::led(own.fields, field_lead(c), k) == 0);
            let key = ((tables::role_rank(o.role), o.at), same_counts::canon_of(o));
            assert forall|i: int| 0 <= i < own.item_fields.len() implies item_field_lead(c)(
                (#[trigger] own.item_fields[i]).0,
            ) == if counted {
                Some(more[i].0)
            } else {
                None
            } by {
                assert(own.item_fields[i].0 == (key, o.fields[i].0));
            }
            if counted {
                lemma_led_hits(own.item_fields, item_field_lead(c), more, k);
            } else {
                lemma_led_nowhere(own.item_fields, item_field_lead(c), k);
            }
        }
    } else {
        assert(occs.take(0) =~= Seq::empty());
        assert(there.take(0) =~= Seq::empty());
    }
}

proof fn lemma_object_adds(c: StreamContext, n: int)
    requires
        0 <= n <= c.tables.object_totals.keys().len(),
    ensures
        streamed::object_adds(c, n) == same_counts::added(
            c.tables.object_totals.keys().take(n),
            |k: Seq<char>| c.tables.object_totals.map()[k] as nat,
            object_lead(c),
        ),
    decreases n,
{
    let keys = c.tables.object_totals.keys();
    if n > 0 {
        lemma_object_adds(c, n - 1);
        assert(keys.take(n).drop_last() =~= keys.take(n - 1));
        assert(keys.take(n).last() == keys[n - 1]);
    }
}

proof fn lemma_item_adds(c: StreamContext, n: int)
    requires
        0 <= n <= c.tables.item_schema_counts.keys().len(),
    ensures
        streamed::item_adds(c, n) == same_counts::added(
            c.tables.item_schema_counts.keys().take(n),
            |k: ((nat, Seq<char>), Seq<char>)|
                c.tables.item_schema_counts.map()[k].object_count as nat,
            item_lead(c),
        ),
    decreases n,
{
    let keys = c.tables.item_schema_counts.keys();
    if n > 0 {
        lemma_item_adds(c, n - 1);
        assert(keys.take(n).drop_last() =~= keys.take(n - 1));
        assert(keys.take(n).last() == keys[n - 1]);
    }
}

proof fn lemma_field_adds(c: StreamContext, n: int)
    requires
        0 <= n <= c.tables.object_field_facts.keys().len(),
    ensures
        streamed::field_adds(c, n) == same_counts::added(
            c.tables.object_field_facts.keys().take(n),
            |k: (Seq<char>, Seq<char>)| c.tables.object_field_facts.map()[k].count as nat,
            field_lead(c),
        ),
    decreases n,
{
    let keys = c.tables.object_field_facts.keys();
    if n > 0 {
        lemma_field_adds(c, n - 1);
        assert(keys.take(n).drop_last() =~= keys.take(n - 1));
        assert(keys.take(n).last() == keys[n - 1]);
    }
}

proof fn lemma_item_field_adds(c: StreamContext, n: int)
    requires
        0 <= n <= c.tables.item_schema_field_counts.keys().len(),
    ensures
        streamed::item_field_adds(c, n) == same_counts::added(
            c.tables.item_schema_field_counts.keys().take(n),
            |k: (((nat, Seq<char>), Seq<char>), Seq<char>)|
                c.tables.item_schema_field_counts.map()[k] as nat,
            item_field_lead(c),
        ),
    decreases n,
{
    let keys = c.tables.item_schema_field_counts.keys();
    if n > 0 {
        lemma_item_field_adds(c, n - 1);
        assert(keys.take(n).drop_last() =~= keys.take(n - 1));
        assert(keys.take(n).last() == keys[n - 1]);
    }
}

/// The rows of a table that counts log entries add as often as the entries lead there.
proof fn lemma_rows_lead<K: Key, V, W, P>(
    m: OrdMap<K, V>,
    pairs: Seq<(K::Model, W)>,
    counts: spec_fn(K::Model) -> nat,
    g: spec_fn(K::Model) -> Option<P>,
    p: P,
)
    requires
        m.wf(),
        forall|k: K::Model| #[trigger]
            m.map().contains_key(k) <==> order::firsts(pairs).contains(k),
        forall|k: K::Model| #[trigger]
            m.map().contains_key(k) ==> counts(k) == order::under(pairs, k).len(),
    ensures
        streamed::sum(order::under(same_counts::added(m.keys(), counts, g), p))
            == same_counts::led(pairs, g, p),
        same_counts::positive(same_counts::added(m.keys(), counts, g)),
{
    let keys = m.keys();
    assert(keys.no_duplicates()) by {
        assert forall|i: int, j: int| 0 <= i < keys.len() && 0 <= j < keys.len() && i
            != j implies keys[i] != keys[j] by {
            if i < j {
                order::lemma_before_excludes(keys[i], keys[j]);
            } else {
                order::lemma_before_excludes(keys[j], keys[i]);
            }
        }
    }
    assert forall|i: int| 0 <= i < keys.len() implies counts(#[trigger] keys[i]) == order::under(
        pairs,
        keys[i],
    ).len() && counts(keys[i]) > 0 by {
        assert(keys.contains(keys[i]));
        assert(m.map().contains_key(keys[i]));
        order::lemma_under_nonempty(pairs, keys[i]);
    }
    same_counts::lemma_added(pairs, keys, counts, g, p);
    assert forall|i: int| 0 <= i < pairs.len() implies keys.contains((#[trigger] pairs[i]).0) by {
        assert(order::firsts(pairs)[i] == pairs[i].0);
        assert(order::firsts(pairs).contains(pairs[i].0));
        assert(m.map().contains_key(pairs[i].0));
    }
    same_counts::lemma_led_among_all(pairs, keys, g, p);
    same_counts::lemma_added_positive(keys, counts, g);
}

/// The object counts are the same.
proof fn lemma_objects_same(
    t: Tables<String, String>,
    outdir: Seq<char>,
    occs: Seq<Occ<Seq<Seq<char>>>>,
)
    requires
        same_counts::comparable(t, outdir, occs),
        same_counts::countable(outdir, occs),
    ensures
        ({
            let recs = streamed::streamed_records(t);
            index::counted(statistics::hits(outdir, catalog::lookups_of(recs), occs))
                == streamed::streamed_objects(streamed::stream_context(t, recs))
        }),
{
    let recs = streamed::streamed_records(t);
    let l = catalog::lookups_of(recs);
    let c = streamed::stream_context(t, recs);
    let there = places::all_located(outdir, occs);
    let log = recorder::log_of(there);
    let hits = statistics::hits(outdir, l, occs);
    let totals = t.object_totals.keys();
    let rows = t.item_schema_counts.keys();
    let a = streamed::object_adds(c, totals.len() as int);
    let b = streamed::item_adds(c, rows.len() as int);
    same_counts::lemma_comparable(t, outdir, occs);
    assert(occs.take(occs.len() as int) =~= occs);
    assert(there.take(there.len() as int) =~= there);
    assert(totals.take(totals.len() as int) =~= totals);
    assert(rows.take(rows.len() as int) =~= rows);
    lemma_object_adds(c, totals.len() as int);
    lemma_item_adds(c, rows.len() as int);
    let f = |k: Seq<char>| c.tables.object_totals.map()[k] as nat;
    let g = |k: ((nat, Seq<char>), Seq<char>)|
        c.tables.item_schema_counts.map()[k].object_count as nat;
    assert forall|p: Seq<char>| #[trigger]
        streamed::sum(order::under(a + b, p)) == order::under(hits, p).len() && (order::firsts(
            a + b,
        ).contains(p) <==> order::firsts(hits).contains(p)) by {
        lemma_hits(t, outdir, occs, occs.len() as int, p);
        lemma_rows_lead(t.object_totals, log.objects, f, object_lead(c), p);
        lemma_rows_lead(t.item_schema_counts, log.items, g, item_lead(c), p);
        same_counts::lemma_sum_under_concat(a, b, p);
        same_counts::lemma_positive_concat(a, b);
        same_counts::lemma_positive_sum(a + b, p);
        order::lemma_under_nonempty(hits, p);
    }
    let left = index::counted(hits);
    let right = streamed::streamed_objects(c);
    assert forall|p: Seq<char>| left.contains_key(p) <==> right.contains_key(p) by {
        assert(streamed::sum(order::under(a + b, p)) == order::under(hits, p).len());
    }
    assert forall|p: Seq<char>| left.contains_key(p) implies #[trigger] left[p] == right[p] by {
        assert(streamed::sum(order::under(a + b, p)) == order::under(hits, p).len());
    }
    assert(left =~= right);
}

/// The field counts and labels are the same.
proof fn lemma_fields_same(
    t: Tables<String, String>,
    outdir: Seq<char>,
    occs: Seq<Occ<Seq<Seq<char>>>>,
)
    requires
        same_counts::comparable(t, outdir, occs),
        same_counts::countable(outdir, occs),
    ensures
        ({
            let recs = streamed::streamed_records(t);
            let l = catalog::lookups_of(recs);
            let c = streamed::stream_context(t, recs);
            statistics::labelled(
                l.definitions,
                index::counted(statistics::field_hits(statistics::hits(outdir, l, occs))),
            ) == streamed::typed(c.types, streamed::summed(streamed::streamed_field_adds(c)))
        }),
{
    let recs = streamed::streamed_records(t);
    let l = catalog::lookups_of(recs);
    let c = streamed::stream_context(t, recs);
    let there = places::all_located(outdir, occs);
    let log = recorder::log_of(there);
    let hits = statistics::field_hits(statistics::hits(outdir, l, occs));
    let facts = t.object_field_facts.keys();
    let rows = t.item_schema_field_counts.keys();
    let a = streamed::field_adds(c, facts.len() as int);
    let b = streamed::item_field_adds(c, rows.len() as int);
    same_counts::lemma_comparable(t, outdir, occs);
    assert(occs.take(occs.len() as int) =~= occs);
    assert(there.take(there.len() as int) =~= there);
    assert(facts.take(facts.len() as int) =~= facts);
    assert(rows.take(rows.len() as int) =~= rows);
    lemma_field_adds(c, facts.len() as int);
    lemma_item_field_adds(c, rows.len() as int);
    let f = |k: (Seq<char>, Seq<char>)| c.tables.object_field_facts.map()[k].count as nat;
    let g = |k: (((nat, Seq<char>), Seq<char>), Seq<char>)|
        c.tables.item_schema_field_counts.map()[k] as nat;
    assert forall|k: (Seq<char>, Seq<char>)| #[trigger]
        streamed::sum(order::under(a + b, k)) == order::under(hits, k).len() && (order::firsts(
            a + b,
        ).contains(k) <==> order::firsts(hits).contains(k)) by {
        lemma_field_hits(t, outdir, occs, occs.len() as int, k);
        lemma_rows_lead(t.object_field_facts, log.fields, f, field_lead(c), k);
        lemma_rows_lead(t.item_schema_field_counts, log.item_fields, g, item_field_lead(c), k);
        same_counts::lemma_sum_under_concat(a, b, k);
        same_counts::lemma_positive_concat(a, b);
        same_counts::lemma_positive_sum(a + b, k);
        order::lemma_under_nonempty(hits, k);
    }
    let left = statistics::labelled(l.definitions, index::counted(hits));
    let right = streamed::typed(c.types, streamed::summed(streamed::streamed_field_adds(c)));
    assert forall|k: (Seq<char>, Seq<char>)| left.contains_key(k) <==> right.contains_key(k) by {
        assert(streamed::sum(order::under(a + b, k)) == order::under(hits, k).len());
    }
    assert forall|k: (Seq<char>, Seq<char>)| left.contains_key(k) implies #[trigger] left[k]
        == right[k] by {
        assert(streamed::sum(order::under(a + b, k)) == order::under(hits, k).len());
        assert(order::firsts(hits).contains(k));
        let i = choose|i: int| 0 <= i < hits.len() && order::firsts(hits)[i] == k;
        lemma_hit_labelled(t, outdir, occs, occs.len() as int, i);
        lemma_typed(t, outdir, occs, k.0, k.1);
    }
    assert(left =~= right);
}

/// A field that is hit has a label.
proof fn lemma_hit_labelled(
    t: Tables<String, String>,
    outdir: Seq<char>,
    occs: Seq<Occ<Seq<Seq<char>>>>,
    n: int,
    i: int,
)
    requires
        same_counts::comparable(t, outdir, occs),
        same_counts::countable(outdir, occs),
        0 <= n <= occs.len(),
        0 <= i < statistics::field_hits(
            statistics::hits(
                outdir,
                catalog::lookups_of(streamed::streamed_records(t)),
                occs.take(n),
            ),
        ).len(),
    ensures
        ({
            let l = catalog::lookups_of(streamed::streamed_records(t));
            let k = statistics::field_hits(statistics::hits(outdir, l, occs.take(n)))[i].0;
            l.definitions.contains_key(k.0) && json::schema_names(l.definitions[k.0]).contains(k.1)
        }),
    decreases n,
{
    let l = catalog::lookups_of(streamed::streamed_records(t));
    if n > 0 {
        assert(occs.take(n).drop_last() =~= occs.take(n - 1));
        assert(occs.take(n).last() == occs[n - 1]);
        let o = occs[n - 1];
        let q = same_counts::lemma_resolved(t, outdir, occs, n - 1);
        let done = statistics::hits(outdir, l, occs.take(n - 1));
        let before = statistics::field_hits(done);
        let whole = statistics::field_hits(statistics::hits(outdir, l, occs.take(n)));
        assert(done.push((q, o.fields)).drop_last() =~= done);
        if i < before.len() {
            lemma_hit_labelled(t, outdir, occs, n - 1, i);
            assert(whole[i] == before[i]);
        } else {
            let more = statistics::hits_of_fields(q, o.fields);
            assert(whole[i] == more[i - before.len()]);
            assert(json::schema_names(l.definitions[q]).contains(o.fields[i - before.len()].0));
        }
    } else {
        assert(occs.take(0) =~= Seq::empty());
    }
}

/// The variants among records.
proof fn lemma_variant_pairs(recs: Seq<Rec>, x: (Seq<char>, Seq<char>))
    ensures
        relations::variant_pairs(recs).contains(x) <==> exists|i: int|
            0 <= i < recs.len() && (#[trigger] recs[i]).array_parent == Some(x.0)
                && recs[i].schema_path == x.1 && x.0 != x.1,
    decreases recs.len(),
{
    if recs.len() > 0 {
        let d = recs.drop_last();
        let last = recs.last();
        let n = recs.len() - 1;
        lemma_variant_pairs(d, x);
        let before = relations::variant_pairs(d);
        let whole = relations::variant_pairs(recs);
        if before.contains(x) {
            let i = choose|i: int|
                0 <= i < d.len() && (#[trigger] d[i]).array_parent == Some(x.0)
                    && d[i].schema_path == x.1 && x.0 != x.1;
            assert(recs[i] == d[i]);
            let j = choose|j: int| 0 <= j < before.len() && before[j] == x;
            assert(whole[j] == x);
        }
        if whole.contains(x) && !before.contains(x) {
            let j = choose|j: int| 0 <= j < whole.len() && whole[j] == x;
            if j < before.len() {
                assert(before[j] == x);
            }
            assert(recs[n] == last);
        }
        if exists|i: int|
            0 <= i < recs.len() && (#[trigger] recs[i]).array_parent == Some(x.0)
                && recs[i].schema_path == x.1 && x.0 != x.1 {
            let i = choose|i: int|
                0 <= i < recs.len() && (#[trigger] recs[i]).array_parent == Some(x.0)
                    && recs[i].schema_path == x.1 && x.0 != x.1;
            if i < n {
                assert(d[i] == recs[i]);
            } else {
                assert(whole[before.len() as int] == x);
            }
        }
    }
}

/// The first value under a key comes from the first pair with that key.
proof fn lemma_under_first<K, T>(pairs: Seq<(K, T)>, k: K) -> (i: int)
    requires
        order::under(pairs, k).len() > 0,
    ensures
        0 <= i < pairs.len(),
        pairs[i] == (k, order::under(pairs, k)[0]),
        forall|j: int| 0 <= j < i ==> (#[trigger] pairs[j]).0 != k,
    decreases pairs.len(),
{
    let d = pairs.drop_last();
    if order::under(d, k).len() > 0 {
        let i = lemma_under_first(d, k);
        assert forall|j: int| 0 <= j < i implies (#[trigger] pairs[j]).0 != k by {
            assert(d[j] == pairs[j]);
        }
        assert(pairs[i] == d[i]);
        i
    } else {
        let n = pairs.len() - 1;
        assert forall|j: int| 0 <= j < n implies (#[trigger] pairs[j]).0 != k by {
            if pairs[j].0 == k {
                assert(d[j] == pairs[j]);
                assert(order::firsts(d)[j] == k);
                assert(order::firsts(d).contains(k));
                order::lemma_under_nonempty(d, k);
            }
        }
        n
    }
}

/// The file of an array comes before the files below it.
proof fn lemma_file_before_below(base: Seq<char>, s: Seq<char>)
    ensures
        path::json_file(base).before(path::json_file(base + "/"@ + s)),
    decreases base.len(),
{
    reveal_strlit(".json");
    reveal_strlit("/");
    let a = path::json_file(base);
    let b = path::json_file(base + "/"@ + s);
    if base.len() > 0 {
        let c = base.drop_first();
        lemma_file_before_below(c, s);
        assert(a.drop_first() =~= path::json_file(c));
        assert(b.drop_first() =~= path::json_file(c + "/"@ + s));
        assert(a[0] == b[0]);
    } else {
        assert(a[0] == '.' && b[0] == '/');
    }
}

/// A record with positions has the file of its array, or one right below.
proof fn lemma_positioned_path(
    t: Tables<String, String>,
    occs: Seq<Occ<Seq<char>>>,
    r: Rec,
) -> (w: (Seq<char>, Seq<char>))
    requires
        streamed_schemas::tables_of(t, occs),
        places::all_apart(occs),
        streamed::streamed_records(t).contains(r),
        r.array_parent is Some,
    ensures
        r.array_parent == Some(path::json_file(w.0)),
        r.index_paths.len() > 0,
        r.schema_path == path::json_file(w.0) || (!w.1.contains('/') && r.schema_path
            == path::json_file(w.0 + "/"@ + w.1)),
{
    let v = same_counts::lemma_positioned(t, occs, r);
    let k = ((tables::role_rank(v.0), v.1), v.2);
    let found = records::positions(streamed::stored_refs(t, k.0), k.1);
    overrides::lemma_stem_has_no_slash(found[0]);
    (v.1, path::file_stem(found[0]))
}

/// The array path that is stored for the schema of a variant is that of its array, and none but
/// variants have one that is not their own.
proof fn lemma_array_parent(
    t: Tables<String, String>,
    outdir: Seq<char>,
    occs: Seq<Occ<Seq<Seq<char>>>>,
    p: Seq<char>,
    x: Seq<char>,
)
    requires
        same_counts::comparable(t, outdir, occs),
        p != x,
    ensures
        catalog::array_parent(streamed::streamed_records(t), x) == Some(p) <==> exists|r: Rec|
            #[trigger] streamed::streamed_records(t).contains(r) && r.array_parent == Some(p)
                && r.schema_path == x,
{
    let recs = streamed::streamed_records(t);
    let there = places::all_located(outdir, occs);
    let all = index::ref_pairs(recs);
    let refs = index::last_wins(all);
    let keys = order::sorted_set(order::firsts(all));
    let pairs = catalog::parent_pairs(recs);
    let found = order::under(pairs, x);
    same_counts::lemma_comparable(t, outdir, occs);
    order::lemma_sorted_set(order::firsts(all));
    if found.len() > 0 {
        let i = lemma_under_first(pairs, x);
        let s = lemma_parent_from(t, outdir, occs, i);
        if exists|r: Rec| #[trigger]
            recs.contains(r) && r.array_parent == Some(p) && r.schema_path == x {
            let r = choose|r: Rec| #[trigger]
                recs.contains(r) && r.array_parent == Some(p) && r.schema_path == x;
            let j = lemma_parent_at(t, outdir, occs, r);
            let v = lemma_positioned_path(t, there, r);
            let w = lemma_positioned_path(t, there, s);
            if found[0] != p {
                if x == path::json_file(w.0) {
                    lemma_file_before_below(v.0, v.1);
                    assert(p.before(x));
                    assert(i != j);
                    assert(i < j);
                    assert(keys[i].before(keys[j]));
                    order::lemma_before_excludes(p, x);
                } else {
                    same_records::lemma_json_file_injective(
                        v.0 + "/"@ + v.1,
                        w.0 + "/"@ + w.1,
                    );
                    overrides::lemma_one_parent(v.0, w.0, v.1, w.1);
                }
            }
        }
    } else if exists|r: Rec| #[trigger]
        recs.contains(r) && r.array_parent == Some(p) && r.schema_path == x {
        let r = choose|r: Rec| #[trigger]
            recs.contains(r) && r.array_parent == Some(p) && r.schema_path == x;
        let j = lemma_parent_at(t, outdir, occs, r);
        assert(pairs.contains((x, p)));
        same_records::lemma_under_contains(pairs, x, p);
    }
}

/// The array paths of schemas come from records.
proof fn lemma_parent_from(
    t: Tables<String, String>,
    outdir: Seq<char>,
    occs: Seq<Occ<Seq<Seq<char>>>>,
    i: int,
) -> (s: Rec)
    requires
        same_counts::comparable(t, outdir, occs),
        0 <= i < catalog::parent_pairs(streamed::streamed_records(t)).len(),
    ensures
        streamed::streamed_records(t).contains(s),
        s.schema_path == catalog::parent_pairs(streamed::streamed_records(t))[i].0,
        s.array_parent == Some(catalog::parent_pairs(streamed::streamed_records(t))[i].1),
{
    let recs = streamed::streamed_records(t);
    let all = index::ref_pairs(recs);
    let keys = order::sorted_set(order::firsts(all));
    let p = catalog::parent_pairs(recs)[i].0;
    order::lemma_sorted_set(order::firsts(all));
    let k = keys[i];
    assert(keys.contains(k));
    order::lemma_under_nonempty(all, k);
    crate::stream::lemma_last_wins_under(all, k);
    same_index::lemma_last_wins_from(all, k);
    same_index::lemma_ref_pairs(recs, (k, p));
    choose|s: Rec| #[trigger]
        recs.contains(s) && s.array_parent == Some(k.0) && s.index_paths.contains(k.1)
            && s.schema_path == p
}

/// A record with positions gives its schema its array path.
proof fn lemma_parent_at(
    t: Tables<String, String>,
    outdir: Seq<char>,
    occs: Seq<Occ<Seq<Seq<char>>>>,
    r: Rec,
) -> (j: int)
    requires
        same_counts::comparable(t, outdir, occs),
        streamed::streamed_records(t).contains(r),
        r.array_parent is Some,
    ensures
        0 <= j < catalog::parent_pairs(streamed::streamed_records(t)).len(),
        catalog::parent_pairs(streamed::streamed_records(t))[j] == (
            r.schema_path,
            r.array_parent->0,
        ),
{
    let recs = streamed::streamed_records(t);
    let there = places::all_located(outdir, occs);
    let all = index::ref_pairs(recs);
    let keys = order::sorted_set(order::firsts(all));
    same_counts::lemma_comparable(t, outdir, occs);
    order::lemma_sorted_set(order::firsts(all));
    let w = lemma_positioned_path(t, there, r);
    let position = r.index_paths[0];
    assert(r.index_paths.contains(position));
    let k = (r.array_parent->0, position);
    same_index::lemma_ref_pairs(recs, (k, r.schema_path));
    same_index::lemma_last_wins_finds(all, k, r.schema_path);
    let m = choose|m: int| 0 <= m < all.len() && all[m] == (k, r.schema_path);
    assert(order::firsts(all)[m] == k);
    assert(keys.contains(k));
    choose|j: int| 0 <= j < keys.len() && keys[j] == k
}

/// Two contexts that tell the same of every schema.
spec fn same_context(a: Context, b: Context) -> bool {
    &&& a.definitions == b.definitions
    &&& a.objects == b.objects
    &&& a.fields == b.fields
    &&& forall|p: Seq<char>|
        order::sorted_set(#[trigger] order::under(a.variants, p)) == order::sorted_set(
            order::under(b.variants, p),
        )
}

proof fn lemma_targets_same(
    a: Context,
    b: Context,
    parent: Seq<char>,
    name: Seq<char>,
    label: Seq<char>,
    targets: Seq<relations::Target>,
)
    requires
        same_context(a, b),
    ensures
        relations::targets_relations(a, parent, name, label, targets)
            == relations::targets_relations(b, parent, name, label, targets),
    decreases targets.len(),
{
    if targets.len() > 0 {
        lemma_targets_same(a, b, parent, name, label, targets.drop_last());
        let t = targets.last();
        assert(order::sorted_set(order::under(a.variants, t.path)) == order::sorted_set(
            order::under(b.variants, t.path),
        ));
        assert(relations::item_schemas(a, t) == relations::item_schemas(b, t));
        assert(relations::target_relations(a, parent, name, label, t)
            =~= relations::target_relations(b, parent, name, label, t));
    }
}

proof fn lemma_fields_relations_same(
    a: Context,
    b: Context,
    parent: Seq<char>,
    schema: Seq<(Seq<char>, Seq<char>)>,
)
    requires
        same_context(a, b),
    ensures
        relations::fields_relations(a, parent, schema) == relations::fields_relations(
            b,
            parent,
            schema,
        ),
    decreases schema.len(),
{
    if schema.len() > 0 {
        lemma_fields_relations_same(a, b, parent, schema.drop_last());
        let (name, label) = schema.last();
        lemma_targets_same(a, b, parent, name, label, relations::field_targets(label));
    }
}

/// The relations of the schema at a path.
spec fn path_relations(
    cx: Context,
    definitions: Map<Seq<char>, Seq<(Seq<char>, Seq<char>)>>,
    p: Seq<char>,
) -> Seq<Relation> {
    if index::is_container(definitions[p]) {
        Seq::empty()
    } else {
        relations::fields_relations(cx, p, definitions[p])
    }
}

spec fn paths_relations(
    cx: Context,
    definitions: Map<Seq<char>, Seq<(Seq<char>, Seq<char>)>>,
    paths: Seq<Seq<char>>,
) -> Seq<Relation>
    decreases paths.len(),
{
    if paths.len() == 0 {
        Seq::empty()
    } else {
        paths_relations(cx, definitions, paths.drop_last()) + path_relations(
            cx,
            definitions,
            paths.last(),
        )
    }
}

spec fn schema_paths(recs: Seq<Rec>) -> Seq<Seq<char>> {
    Seq::new(recs.len(), |i: int| recs[i].schema_path)
}

proof fn lemma_relations_by_path(
    cx: Context,
    definitions: Map<Seq<char>, Seq<(Seq<char>, Seq<char>)>>,
    recs: Seq<Rec>,
)
    requires
        forall|i: int|
            0 <= i < recs.len() ==> (#[trigger] recs[i]).schema
                == definitions[recs[i].schema_path],
    ensures
        relations::relations(cx, recs) == paths_relations(cx, definitions, schema_paths(recs)),
    decreases recs.len(),
{
    let paths = schema_paths(recs);
    if recs.len() > 0 {
        let d = recs.drop_last();
        assert forall|i: int| 0 <= i < d.len() implies (#[trigger] d[i]).schema
            == definitions[d[i].schema_path] by {
            assert(recs[i] == d[i]);
        }
        lemma_relations_by_path(cx, definitions, d);
        assert(paths.drop_last() =~= schema_paths(d));
        let last = recs[recs.len() - 1];
        assert(last.schema == definitions[last.schema_path]);
    }
}

proof fn lemma_paths_relations_same(
    a: Context,
    b: Context,
    definitions: Map<Seq<char>, Seq<(Seq<char>, Seq<char>)>>,
    paths: Seq<Seq<char>>,
)
    requires
        same_context(a, b),
    ensures
        paths_relations(a, definitions, paths) == paths_relations(b, definitions, paths),
    decreases paths.len(),
{
    if paths.len() > 0 {
        lemma_paths_relations_same(a, b, definitions, paths.drop_last());
        lemma_fields_relations_same(a, b, paths.last(), definitions[paths.last()]);
    }
}

/// The stored relations of the schema at a path.
spec fn path_rows(
    cx: Context,
    definitions: Map<Seq<char>, Seq<(Seq<char>, Seq<char>)>>,
    p: Seq<char>,
) -> Seq<Relation> {
    relations::unique_rows(path_relations(cx, definitions, p))
}

spec fn paths_rows(
    cx: Context,
    definitions: Map<Seq<char>, Seq<(Seq<char>, Seq<char>)>>,
    paths: Seq<Seq<char>>,
) -> Seq<Relation>
    decreases paths.len(),
{
    if paths.len() == 0 {
        Seq::empty()
    } else {
        paths_rows(cx, definitions, paths.drop_last()) + path_rows(cx, definitions, paths.last())
    }
}

/// A relation that goes through an array leads to `p`.
spec fn leads_to(r: Relation, p: Seq<char>) -> bool {
    r.via_array is Some ==> r.to == p
}

proof fn lemma_targets_lead(
    cx: Context,
    parent: Seq<char>,
    name: Seq<char>,
    label: Seq<char>,
    targets: Seq<relations::Target>,
)
    ensures
        forall|i: int|
            0 <= i < relations::targets_relations(cx, parent, name, label, targets).len()
                ==> leads_to(
                #[trigger] relations::targets_relations(cx, parent, name, label, targets)[i],
                parent,
            ),
    decreases targets.len(),
{
    if targets.len() > 0 {
        lemma_targets_lead(cx, parent, name, label, targets.drop_last());
        let before = relations::targets_relations(cx, parent, name, label, targets.drop_last());
        let last = relations::target_relations(cx, parent, name, label, targets.last());
        let whole = relations::targets_relations(cx, parent, name, label, targets);
        assert(whole == before + last);
        assert forall|i: int| 0 <= i < whole.len() implies leads_to(#[trigger] whole[i], parent) by {
            if i < before.len() {
                assert(whole[i] == before[i]);
            } else {
                assert(whole[i] == last[i - before.len()]);
            }
        }
    }
}

proof fn lemma_fields_lead(
    cx: Context,
    parent: Seq<char>,
    schema: Seq<(Seq<char>, Seq<char>)>,
)
    ensures
        forall|i: int|
            0 <= i < relations::fields_relations(cx, parent, schema).len() ==> leads_to(
                #[trigger] relations::fields_relations(cx, parent, schema)[i],
                parent,
            ),
    decreases schema.len(),
{
    if schema.len() > 0 {
        let (name, label) = schema.last();
        lemma_fields_lead(cx, parent, schema.drop_last());
        lemma_targets_lead(cx, parent, name, label, relations::field_targets(label));
        let before = relations::fields_relations(cx, parent, schema.drop_last());
        let whole = relations::fields_relations(cx, parent, schema);
        if relations::field_count(cx, parent, name) == 0 {
            assert(whole =~= before);
        } else {
            let last = relations::targets_relations(
                cx,
                parent,
                name,
                label,
                relations::field_targets(label),
            );
            assert(whole == before + last);
            assert forall|i: int| 0 <= i < whole.len() implies leads_to(
                #[trigger] whole[i],
                parent,
            ) by {
                if i < before.len() {
                    assert(whole[i] == before[i]);
                } else {
                    assert(whole[i] == last[i - before.len()]);
                }
            }
        }
    }
}

/// Every relation through an array leads to one of the paths.
proof fn lemma_paths_lead(
    cx: Context,
    definitions: Map<Seq<char>, Seq<(Seq<char>, Seq<char>)>>,
    paths: Seq<Seq<char>>,
)
    ensures
        forall|i: int|
            0 <= i < paths_relations(cx, definitions, paths).len() ==> ((
            #[trigger] paths_relations(cx, definitions, paths)[i]).via_array is Some
                ==> paths.contains(paths_relations(cx, definitions, paths)[i].to)),
    decreases paths.len(),
{
    if paths.len() > 0 {
        let d = paths.drop_last();
        let p = paths.last();
        lemma_paths_lead(cx, definitions, d);
        lemma_fields_lead(cx, p, definitions[p]);
        let before = paths_relations(cx, definitions, d);
        let last = path_relations(cx, definitions, p);
        let whole = paths_relations(cx, definitions, paths);
        assert forall|i: int| 0 <= i < whole.len() && (#[trigger] whole[i]).via_array is Some implies
            paths.contains(whole[i].to) by {
            if i < before.len() {
                assert(whole[i] == before[i]);
                assert(d.contains(before[i].to));
                let k = choose|k: int| 0 <= k < d.len() && d[k] == before[i].to;
                assert(paths[k] == before[i].to);
            } else {
                assert(whole[i] == last[i - before.len()]);
                assert(leads_to(last[i - before.len()], p));
                assert(paths[paths.len() - 1] == p);
            }
        }
    }
}

proof fn lemma_kept_rows(rows: Seq<Relation>)
    ensures
        forall|i: int|
            0 <= i < relations::unique_rows(rows).len() ==> rows.contains(
                #[trigger] relations::unique_rows(rows)[i],
            ),
    decreases rows.len(),
{
    if rows.len() > 0 {
        let d = rows.drop_last();
        lemma_kept_rows(d);
        let kept = relations::unique_rows(rows);
        assert forall|i: int| 0 <= i < kept.len() implies rows.contains(#[trigger] kept[i]) by {
            if i < relations::unique_rows(d).len() {
                assert(kept[i] == relations::unique_rows(d)[i]);
                let k = choose|k: int| 0 <= k < d.len() && d[k] == kept[i];
                assert(rows[k] == kept[i]);
            } else {
                assert(rows[rows.len() - 1] == kept[i]);
            }
        }
    }
}

/// Relations that repeat none of `a` are kept as if they stood alone.
proof fn lemma_unique_concat(a: Seq<Relation>, b: Seq<Relation>)
    requires
        forall|i: int, j: int|
            0 <= i < a.len() && 0 <= j < b.len() ==> !relations::same_row(
                #[trigger] a[i],
                #[trigger] b[j],
            ),
    ensures
        relations::unique_rows(a + b) == relations::unique_rows(a) + relations::unique_rows(b),
    decreases b.len(),
{
    let left = relations::unique_rows(a);
    if b.len() == 0 {
        assert(a + b =~= a);
        assert(left + relations::unique_rows(b) =~= left);
    } else {
        let d = b.drop_last();
        let x = b.last();
        assert(x == b[b.len() - 1]);
        assert forall|i: int, j: int| 0 <= i < a.len() && 0 <= j < d.len() implies
            !relations::same_row(#[trigger] a[i], #[trigger] d[j]) by {
            assert(d[j] == b[j]);
        }
        lemma_unique_concat(a, d);
        lemma_kept_rows(a);
        assert((a + b).drop_last() =~= a + d);
        assert((a + b).last() == x);
        let right = relations::unique_rows(d);
        if relations::listed(left + right, x) {
            let i = choose|i: int|
                0 <= i < (left + right).len() && relations::same_row(
                    #[trigger] (left + right)[i],
                    x,
                );
            if i < left.len() {
                assert(a.contains(left[i]));
                let k = choose|k: int| 0 <= k < a.len() && a[k] == left[i];
                assert(relations::same_row(a[k], b[b.len() - 1]));
            }
            assert(right[i - left.len()] == (left + right)[i]);
            assert(relations::listed(right, x));
        }
        if relations::listed(right, x) {
            let i = choose|i: int|
                0 <= i < right.len() && relations::same_row(#[trigger] right[i], x);
            assert((left + right)[i + left.len()] == right[i]);
        }
        assert((left + right).push(x) =~= left + right.push(x));
    }
}

/// With each path once, the stored relations are those of the single paths.
proof fn lemma_rows_by_path(
    cx: Context,
    definitions: Map<Seq<char>, Seq<(Seq<char>, Seq<char>)>>,
    paths: Seq<Seq<char>>,
)
    requires
        paths.no_duplicates(),
    ensures
        relations::unique_rows(paths_relations(cx, definitions, paths)) == paths_rows(
            cx,
            definitions,
            paths,
        ),
    decreases paths.len(),
{
    if paths.len() > 0 {
        let d = paths.drop_last();
        let p = paths.last();
        assert(d.no_duplicates()) by {
            assert forall|i: int, k: int| 0 <= i < d.len() && 0 <= k < d.len() && i != k implies d[i]
                != d[k] by {
                assert(paths[i] != paths[k]);
            }
        }
        lemma_rows_by_path(cx, definitions, d);
        lemma_paths_lead(cx, definitions, d);
        lemma_fields_lead(cx, p, definitions[p]);
        let before = paths_relations(cx, definitions, d);
        let last = path_relations(cx, definitions, p);
        assert forall|i: int, j: int| 0 <= i < before.len() && 0 <= j < last.len() implies
            !relations::same_row(#[trigger] before[i], #[trigger] last[j]) by {
            if relations::same_row(before[i], last[j]) {
                assert(d.contains(before[i].to));
                let k = choose|k: int| 0 <= k < d.len() && d[k] == before[i].to;
                assert(leads_to(last[j], p));
                assert(paths[k] != paths[paths.len() - 1]);
            }
        }
        lemma_unique_concat(before, last);
    }
}

/// Taking a path out takes its relations out.
proof fn lemma_without_path(
    cx: Context,
    definitions: Map<Seq<char>, Seq<(Seq<char>, Seq<char>)>>,
    paths: Seq<Seq<char>>,
    i: int,
)
    requires
        0 <= i < paths.len(),
    ensures
        paths_rows(cx, definitions, paths).to_multiset() == paths_rows(
            cx,
            definitions,
            paths.remove(i),
        ).to_multiset().add(path_rows(cx, definitions, paths[i]).to_multiset()),
    decreases paths.len(),
{
    let n = paths.len() - 1;
    let d = paths.drop_last();
    let own = path_rows(cx, definitions, paths[i]);
    let last = path_rows(cx, definitions, paths.last());
    vstd::seq_lib::lemma_multiset_commutative(paths_rows(cx, definitions, d), last);
    if i == n {
        assert(paths.remove(i) =~= d);
    } else {
        lemma_without_path(cx, definitions, d, i);
        assert(paths.remove(i).drop_last() =~= d.remove(i));
        assert(paths.remove(i).last() == paths.last());
        vstd::seq_lib::lemma_multiset_commutative(
            paths_rows(cx, definitions, d.remove(i)),
            last,
        );
        let rest = paths_rows(cx, definitions, d.remove(i)).to_multiset();
        assert(rest.add(own.to_multiset()).add(last.to_multiset()) =~= rest.add(
            last.to_multiset(),
        ).add(own.to_multiset()));
    }
}

/// The order of the paths does not change the relations.
proof fn lemma_paths_in_any_order(
    cx: Context,
    definitions: Map<Seq<char>, Seq<(Seq<char>, Seq<char>)>>,
    a: Seq<Seq<char>>,
    b: Seq<Seq<char>>,
)
    requires
        a.no_duplicates(),
        b.no_duplicates(),
        same_records::same_elements(a, b),
    ensures
        paths_rows(cx, definitions, a).to_multiset() == paths_rows(
            cx,
            definitions,
            b,
        ).to_multiset(),
    decreases a.len(),
{
    if a.len() == 0 {
        if b.len() > 0 {
            assert(b.contains(b[0]));
            assert(a.contains(b[0]));
        }
        assert(a =~= b);
    } else {
        let n = a.len() - 1;
        let p = a[n];
        assert(a.contains(p));
        assert(b.contains(p));
        let j = choose|j: int| 0 <= j < b.len() && b[j] == p;
        let c = a.remove(n);
        let d = b.remove(j);
        assert forall|x: Seq<char>| #[trigger] c.contains(x) <==> d.contains(x) by {
            assert(a.contains(x) <==> b.contains(x));
            if c.contains(x) {
                let i = choose|i: int| 0 <= i < c.len() && c[i] == x;
                assert(a[i] == x);
                assert(b.contains(x));
                let m = choose|m: int| 0 <= m < b.len() && b[m] == x;
                assert(m != j);
                assert(d[if m < j {
                    m
                } else {
                    m - 1
                }] == x);
            }
            if d.contains(x) {
                let i = choose|i: int| 0 <= i < d.len() && d[i] == x;
                let m = if i < j {
                    i
                } else {
                    i + 1
                };
                assert(b[m] == x);
                assert(a.contains(x));
                let q = choose|q: int| 0 <= q < a.len() && a[q] == x;
                assert(q != n);
                assert(c[q] == x);
            }
        }
        assert(c.no_duplicates()) by {
            assert forall|i: int, k: int| 0 <= i < c.len() && 0 <= k < c.len() && i != k implies c[i]
                != c[k] by {
                assert(a[i] != a[k]);
            }
        }
        assert(d.no_duplicates()) by {
            assert forall|i: int, k: int| 0 <= i < d.len() && 0 <= k < d.len() && i != k implies d[i]
                != d[k] by {
                let x = if i < j {
                    i
                } else {
                    i + 1
                };
                let y = if k < j {
                    k
                } else {
                    k + 1
                };
                assert(b[x] != b[y]);
            }
        }
        lemma_paths_in_any_order(cx, definitions, c, d);
        lemma_without_path(cx, definitions, a, n);
        lemma_without_path(cx, definitions, b, j);
    }
}

/// No later record has the schema path of the record at `i`.
pub open spec fn is_kept(recs: Seq<Rec>, i: int) -> bool {
    forall|j: int|
        i < j < recs.len() ==> (#[trigger] recs[j]).schema_path != recs[i].schema_path
}

/// Those of the first `n` records that no later one overrides.
pub open spec fn kept_among(recs: Seq<Rec>, n: int) -> Seq<Rec>
    decreases n,
{
    if n <= 0 {
        Seq::empty()
    } else if is_kept(recs, n - 1) {
        kept_among(recs, n - 1).push(recs[n - 1])
    } else {
        kept_among(recs, n - 1)
    }
}

/// The records that no later one overrides.
pub open spec fn kept_records(recs: Seq<Rec>) -> Seq<Rec> {
    kept_among(recs, recs.len() as int)
}

/// A record that is kept has the schema that is stored for its path.
proof fn lemma_kept_defined(recs: Seq<Rec>, i: int)
    requires
        0 <= i < recs.len(),
        is_kept(recs, i),
    ensures
        index::last_wins(index::definition_pairs(recs)).contains_key(recs[i].schema_path),
        index::last_wins(index::definition_pairs(recs))[recs[i].schema_path] == recs[i].schema,
    decreases recs.len(),
{
    let d = recs.drop_last();
    let n = recs.len() - 1;
    assert(index::definition_pairs(recs).drop_last() =~= index::definition_pairs(d));
    if i < n {
        assert(recs[n].schema_path != recs[i].schema_path);
        assert forall|j: int| i < j < d.len() implies (#[trigger] d[j]).schema_path
            != d[i].schema_path by {
            assert(recs[j].schema_path != recs[i].schema_path);
        }
        lemma_kept_defined(d, i);
    }
}

/// Each path has a record that is kept.
proof fn lemma_kept_at(recs: Seq<Rec>, i: int) -> (j: int)
    requires
        0 <= i < recs.len(),
    ensures
        i <= j < recs.len(),
        recs[j].schema_path == recs[i].schema_path,
        is_kept(recs, j),
    decreases recs.len() - i,
{
    if is_kept(recs, i) {
        i
    } else {
        let k = choose|k: int|
            i < k < recs.len() && (#[trigger] recs[k]).schema_path == recs[i].schema_path;
        lemma_kept_at(recs, k)
    }
}

/// What is kept, and where it comes from.
proof fn lemma_kept_among(recs: Seq<Rec>, n: int)
    requires
        0 <= n <= recs.len(),
    ensures
        schema_paths(kept_among(recs, n)).no_duplicates(),
        forall|i: int|
            0 <= i < n && is_kept(recs, i) ==> schema_paths(kept_among(recs, n)).contains(
                (#[trigger] recs[i]).schema_path,
            ),
        forall|k: int|
            0 <= k < kept_among(recs, n).len() ==> exists|i: int|
                0 <= i < n && is_kept(recs, i) && recs[i] == #[trigger] kept_among(recs, n)[k],
    decreases n,
{
    if n > 0 {
        lemma_kept_among(recs, n - 1);
        let before = kept_among(recs, n - 1);
        let whole = kept_among(recs, n);
        let a = schema_paths(before);
        let b = schema_paths(whole);
        assert forall|i: int| 0 <= i < n && is_kept(recs, i) implies b.contains(
            (#[trigger] recs[i]).schema_path,
        ) by {
            if i < n - 1 {
                assert(a.contains(recs[i].schema_path));
                let k = choose|k: int| 0 <= k < a.len() && a[k] == recs[i].schema_path;
                assert(b[k] == recs[i].schema_path);
            } else {
                assert(b[before.len() as int] == recs[i].schema_path);
            }
        }
        assert forall|k: int| 0 <= k < whole.len() implies exists|i: int|
            0 <= i < n && is_kept(recs, i) && recs[i] == #[trigger] whole[k] by {
            if k < before.len() {
                assert(whole[k] == before[k]);
                let i = choose|i: int|
                    0 <= i < n - 1 && is_kept(recs, i) && recs[i] == before[k];
                assert(recs[i] == whole[k]);
            } else {
                assert(recs[n - 1] == whole[k]);
            }
        }
        assert forall|x: int, y: int| 0 <= x < b.len() && 0 <= y < b.len() && x != y implies b[x]
            != b[y] by {
            if x < before.len() && y < before.len() {
                assert(a[x] != a[y]);
            } else {
                let z = if x < before.len() {
                    x
                } else {
                    y
                };
                assert(whole[z] == before[z]);
                let i = choose|i: int|
                    0 <= i < n - 1 && is_kept(recs, i) && recs[i] == before[z];
                assert(recs[n - 1].schema_path != recs[i].schema_path);
            }
        }
    }
}

/// Records with schema paths of their own are all kept.
proof fn lemma_all_kept(recs: Seq<Rec>, n: int)
    requires
        same_index::schemas_apart(recs),
        0 <= n <= recs.len(),
    ensures
        kept_among(recs, n) == recs.take(n),
    decreases n,
{
    if n > 0 {
        lemma_all_kept(recs, n - 1);
        assert(is_kept(recs, n - 1)) by {
            assert forall|j: int| n - 1 < j < recs.len() implies (#[trigger] recs[j]).schema_path
                != recs[n - 1].schema_path by {
                assert(recs[n - 1].schema_path != recs[j].schema_path);
            }
        }
        assert(recs.take(n) =~= recs.take(n - 1).push(recs[n - 1]));
    } else {
        assert(recs.take(0) =~= Seq::empty());
    }
}

/// The stored records hold the definitions, each path once.
proof fn lemma_stored_definitions(recs: Seq<Rec>)
    ensures
        index::last_wins(index::definition_pairs(catalog::stored_records(recs)))
            == index::last_wins(index::definition_pairs(recs)),
        schema_paths(catalog::stored_records(recs)) == order::sorted_set(
            order::firsts(index::definition_pairs(recs)),
        ),
        schema_paths(catalog::stored_records(recs)).no_duplicates(),
        forall|p: Seq<char>| #[trigger]
            schema_paths(catalog::stored_records(recs)).contains(p) <==> schema_paths(
                recs,
            ).contains(p),
{
    let stored = catalog::stored_records(recs);
    let pairs = index::definition_pairs(recs);
    let others = index::definition_pairs(stored);
    let spots = order::sorted_set(order::firsts(pairs));
    let right = schema_paths(stored);
    order::lemma_sorted_set(order::firsts(pairs));
    assert(right =~= spots);
    assert(order::firsts(pairs) =~= schema_paths(recs));
    assert(order::firsts(others) =~= spots);
    assert forall|i: int, j: int| 0 <= i < right.len() && 0 <= j < right.len() && i
        != j implies right[i] != right[j] by {
        if i < j {
            order::lemma_before_excludes(spots[i], spots[j]);
        } else {
            order::lemma_before_excludes(spots[j], spots[i]);
        }
    }
    let a = index::last_wins(others);
    let b = index::last_wins(pairs);
    assert forall|p: Seq<char>| a.dom().contains(p) == b.dom().contains(p) by {
        crate::stream::lemma_last_wins_under(others, p);
        crate::stream::lemma_last_wins_under(pairs, p);
        order::lemma_under_nonempty(others, p);
        order::lemma_under_nonempty(pairs, p);
    }
    assert forall|p: Seq<char>| #[trigger] a.dom().contains(p) implies a[p] == b[p] by {
        crate::stream::lemma_last_wins_under(others, p);
        order::lemma_under_nonempty(others, p);
        same_index::lemma_last_wins_from(others, p);
        let j = choose|j: int| 0 <= j < others.len() && others[j] == (p, a[p]);
        assert(others[j] == (spots[j], b[spots[j]]));
    }
    assert(a =~= b);
}

/// An array has the same variants on both sides.
proof fn lemma_variants_same(
    t: Tables<String, String>,
    outdir: Seq<char>,
    occs: Seq<Occ<Seq<Seq<char>>>>,
    p: Seq<char>,
)
    requires
        same_counts::comparable(t, outdir, occs),
    ensures
        order::sorted_set(
            order::under(relations::variant_pairs(records::built(outdir, occs)), p),
        ) == order::sorted_set(
            order::under(
                relations::variant_pairs(catalog::stored_records(streamed::streamed_records(t))),
                p,
            ),
        ),
{
    let mine = records::built(outdir, occs);
    let recs = streamed::streamed_records(t);
    let stored = catalog::stored_records(recs);
    let a = relations::variant_pairs(mine);
    let b = relations::variant_pairs(stored);
    let u = order::under(a, p);
    let w = order::under(b, p);
    same_counts::lemma_comparable(t, outdir, occs);
    lemma_stored_definitions(recs);
    assert forall|x: Seq<char>| #[trigger] u.contains(x) <==> w.contains(x) by {
        same_records::lemma_under_contains(a, p, x);
        same_records::lemma_under_contains(b, p, x);
        lemma_variant_pairs(mine, (p, x));
        lemma_variant_pairs(stored, (p, x));
        if p != x {
            lemma_array_parent(t, outdir, occs, p, x);
        }
        if u.contains(x) {
            let i = choose|i: int|
                0 <= i < mine.len() && (#[trigger] mine[i]).array_parent == Some(p)
                    && mine[i].schema_path == x && p != x;
            assert(mine.contains(mine[i]));
            assert(recs.contains(mine[i]));
            let m = choose|m: int| 0 <= m < recs.len() && recs[m] == mine[i];
            assert(schema_paths(recs)[m] == x);
            assert(schema_paths(recs).contains(x));
            assert(schema_paths(stored).contains(x));
            let j = choose|j: int| 0 <= j < stored.len() && schema_paths(stored)[j] == x;
            assert(stored[j].array_parent == Some(p));
        }
        if w.contains(x) {
            let i = choose|i: int|
                0 <= i < stored.len() && (#[trigger] stored[i]).array_parent == Some(p)
                    && stored[i].schema_path == x && p != x;
            assert(catalog::array_parent(recs, x) == Some(p));
            let r = choose|r: Rec| #[trigger]
                recs.contains(r) && r.array_parent == Some(p) && r.schema_path == x;
            assert(mine.contains(r));
            let j = choose|j: int| 0 <= j < mine.len() && mine[j] == r;
            assert(mine[j].array_parent == Some(p));
        }
    }
    same_records::lemma_sorted_same(u, w);
}

/// The stored relations are those of the records that are kept.
proof fn lemma_relations_same(
    t: Tables<String, String>,
    outdir: Seq<char>,
    occs: Seq<Occ<Seq<Seq<char>>>>,
    objects: Map<Seq<char>, nat>,
    fields: Map<(Seq<char>, Seq<char>), (Seq<char>, nat)>,
)
    requires
        same_counts::comparable(t, outdir, occs),
    ensures
        ({
            let mine = records::built(outdir, occs);
            let stored = catalog::stored_records(streamed::streamed_records(t));
            relations::unique_rows(
                relations::relations(
                    relations::context(mine, objects, fields),
                    kept_records(mine),
                ),
            ).to_multiset() == relations::unique_rows(
                relations::relations(relations::context(stored, objects, fields), stored),
            ).to_multiset()
        }),
{
    let mine = records::built(outdir, occs);
    let recs = streamed::streamed_records(t);
    let stored = catalog::stored_records(recs);
    let kept = kept_records(mine);
    let a = relations::context(mine, objects, fields);
    let b = relations::context(stored, objects, fields);
    let definitions = index::last_wins(index::definition_pairs(recs));
    same_counts::lemma_comparable(t, outdir, occs);
    assert(a.definitions == definitions);
    lemma_stored_definitions(recs);
    assert(same_context(a, b)) by {
        assert forall|p: Seq<char>|
            order::sorted_set(#[trigger] order::under(a.variants, p)) == order::sorted_set(
                order::under(b.variants, p),
            ) by {
            lemma_variants_same(t, outdir, occs, p);
        }
    }
    lemma_kept_among(mine, mine.len() as int);
    assert forall|k: int| 0 <= k < kept.len() implies (#[trigger] kept[k]).schema
        == definitions[kept[k].schema_path] by {
        let i = choose|i: int|
            0 <= i < mine.len() && is_kept(mine, i) && mine[i] == kept[k];
        lemma_kept_defined(mine, i);
    }
    lemma_relations_by_path(a, definitions, kept);
    lemma_relations_by_path(b, definitions, stored);
    lemma_paths_relations_same(a, b, definitions, schema_paths(stored));
    let left = schema_paths(kept);
    let right = schema_paths(stored);
    assert forall|x: Seq<char>| #[trigger] left.contains(x) <==> right.contains(x) by {
        if left.contains(x) {
            let k = choose|k: int| 0 <= k < left.len() && left[k] == x;
            let i = choose|i: int|
                0 <= i < mine.len() && is_kept(mine, i) && mine[i] == kept[k];
            assert(mine.contains(mine[i]));
            assert(recs.contains(mine[i]));
            let m = choose|m: int| 0 <= m < recs.len() && recs[m] == mine[i];
            assert(schema_paths(recs)[m] == x);
            assert(schema_paths(recs).contains(x));
        }
        if right.contains(x) {
            assert(schema_paths(recs).contains(x));
            let m = choose|m: int| 0 <= m < recs.len() && schema_paths(recs)[m] == x;
            assert(recs.contains(recs[m]));
            assert(mine.contains(recs[m]));
            let i = choose|i: int| 0 <= i < mine.len() && mine[i] == recs[m];
            let j = lemma_kept_at(mine, i);
            assert(left.contains(mine[j].schema_path));
        }
    }
    lemma_rows_by_path(a, definitions, left);
    lemma_rows_by_path(a, definitions, right);
    lemma_paths_in_any_order(a, definitions, left, right);
}

/// The walk of the values of a stream.
pub open spec fn stream_walk(root: Seq<char>, values: Seq<Json>) -> Seq<Occ<Seq<Seq<char>>>> {
    walk::walk_all(input::members_of_collection(root, values), walk::by_keys())
}

/// What is stored of the values of a stream when they are read at once.
pub open spec fn stored_at_once(outdir: Seq<char>, root: Seq<char>, values: Seq<Json>) -> Stored {
    let occs = stream_walk(root, values);
    catalog::stored_of(outdir, records::built(outdir, occs), occs)
}

/// The tables hold what a stream of these values records.
pub open spec fn streamed_into(
    t: Tables<String, String>,
    outdir: Seq<char>,
    root: Seq<char>,
    values: Seq<Json>,
) -> bool {
    let log = jsonl::values_log(path::reference(outdir, seq![root]), values, 0);
    &&& input::all_objects(values)
    &&& input::all_tidy(values)
    &&& t.holds(log)
    &&& tables::facts_fit(log)
}

proof fn lemma_stream_comparable(
    t: Tables<String, String>,
    outdir: Seq<char>,
    root: Seq<char>,
    values: Seq<Json>,
)
    requires
        streamed_into(t, outdir, root, values),
    ensures
        same_counts::comparable(t, outdir, stream_walk(root, values)),
{
    let roots = input::members_of_collection(root, values);
    let occs = stream_walk(root, values);
    let there = places::all_located(outdir, occs);
    let members = jsonl::streamed_members(path::reference(outdir, seq![root]), values, 0);
    assert(members =~= places::all_located(outdir, roots)) by {
        assert forall|i: int| 0 <= i < members.len() implies members[i] == places::located(
            outdir,
            roots[i],
        ) by {
            assert(seq![0nat + i as nat] =~= seq![i as nat]);
        }
    }
    places::lemma_located_walk(outdir, roots);
    places::lemma_collection_apart(root, values);
    assert(same_records::placed(occs));
    assert(facts::all_tidy(there)) by {
        assert forall|i: int| 0 <= i < there.len() implies json::tidy_fields(
            (#[trigger] there[i]).fields,
        ) by {
            assert(json::tidy_fields(occs[i].fields));
        }
    }
}

/// A stream of objects gives the index that the same objects give when they are read at once:
/// the same schemas, object paths, item positions, object counts and field counts with their
/// labels. This holds wherever reading them at once succeeds, that is, wherever every object
/// finds a schema with its fields.
pub proof fn law_streaming_stores_the_same(
    t: Tables<String, String>,
    outdir: Seq<char>,
    root: Seq<char>,
    values: Seq<Json>,
)
    requires
        streamed_into(t, outdir, root, values),
        same_counts::countable(outdir, stream_walk(root, values)),
    ensures
        ({
            let whole = stored_at_once(outdir, root, values);
            let streamed = catalog::stored_of_tables(t);
            &&& streamed.definitions == whole.definitions
            &&& streamed.paths == whole.paths
            &&& streamed.refs == whole.refs
            &&& streamed.objects == whole.objects
            &&& streamed.fields == whole.fields
        }),
{
    let occs = stream_walk(root, values);
    lemma_stream_comparable(t, outdir, root, values);
    same_counts::lemma_comparable(t, outdir, occs);
    lemma_objects_same(t, outdir, occs);
    lemma_fields_same(t, outdir, occs);
}

/// The relations of the records that no later one with their schema path overrides; `whole` is
/// what is stored of all of them.
pub open spec fn kept_relations(recs: Seq<Rec>, whole: Stored) -> Seq<Relation> {
    relations::unique_rows(
        relations::relations(
            relations::context(recs, whole.objects, whole.fields),
            kept_records(recs),
        ),
    )
}

/// A stream of objects gives the relations, perhaps in another order, that the same objects
/// give when they are read at once, but for those of records that are overridden by a later one
/// with their schema path. If no two records have one schema path, none are.
pub proof fn law_streaming_relates_the_same(
    t: Tables<String, String>,
    outdir: Seq<char>,
    root: Seq<char>,
    values: Seq<Json>,
)
    requires
        streamed_into(t, outdir, root, values),
        same_counts::countable(outdir, stream_walk(root, values)),
    ensures
        ({
            let recs = records::built(outdir, stream_walk(root, values));
            let whole = stored_at_once(outdir, root, values);
            &&& catalog::stored_of_tables(t).relations.to_multiset() == kept_relations(
                recs,
                whole,
            ).to_multiset()
            &&& same_index::schemas_apart(recs) ==> kept_relations(recs, whole) == whole.relations
        }),
{
    let occs = stream_walk(root, values);
    let whole = stored_at_once(outdir, root, values);
    let recs = records::built(outdir, occs);
    law_streaming_stores_the_same(t, outdir, root, values);
    lemma_stream_comparable(t, outdir, root, values);
    lemma_relations_same(t, outdir, occs, whole.objects, whole.fields);
    if same_index::schemas_apart(recs) {
        lemma_all_kept(recs, recs.len() as int);
        assert(recs.take(recs.len() as int) =~= recs);
    }
}

/// Of a stream whose records list no object path twice, reading at once succeeds, and no two
/// records have one schema path.
pub proof fn law_apart_paths_are_countable(
    t: Tables<String, String>,
    outdir: Seq<char>,
    root: Seq<char>,
    values: Seq<Json>,
)
    requires
        streamed_into(t, outdir, root, values),
        same_index::paths_apart(records::built(outdir, stream_walk(root, values))),
    ensures
        same_counts::countable(outdir, stream_walk(root, values)),
        same_index::schemas_apart(records::built(outdir, stream_walk(root, values))),
{
    let occs = stream_walk(root, values);
    lemma_stream_comparable(t, outdir, root, values);
    same_counts::lemma_comparable(t, outdir, occs);
    same_counts::lemma_no_fault(t, outdir, occs, occs.len() as int);
    assert(occs.take(occs.len() as int) =~= occs);
    same_index::lemma_schemas_apart(records::built(outdir, occs));
}

} // verus!
