//! Tables of facts about streamed objects, by path.

use crate::index;
use crate::json;
use crate::json::{Json, JsonValue};
use crate::kinds;
use crate::kinds::ValueTypeCounts;
use crate::order;
use crate::ordmap::{Key, OrdMap};
use crate::statistics;
use crate::text;
use crate::walk::Role;
use vstd::prelude::*;

verus! {

/// The place of a role among the names under which roles are stored, in their order.
pub open spec fn role_rank(role: Role) -> nat {
    match role {
        Role::ArrayItem => 0,
        Role::Object => 1,
        Role::RootCollection => 2,
    }
}

/// The name under which a role is stored.
pub open spec fn role_name(role: Role) -> Seq<char> {
    match role {
        Role::Object => "object"@,
        Role::ArrayItem => "array_item"@,
        Role::RootCollection => "root_collection"@,
    }
}

pub fn role_storage_name(role: Role) -> (r: &'static str)
    ensures
        r@ == role_name(role),
{
    match role {
        Role::Object => "object",
        Role::ArrayItem => "array_item",
        Role::RootCollection => "root_collection",
    }
}

impl Key for Role {
    type Model = nat;

    open spec fn model(&self) -> nat {
        role_rank(*self)
    }

    fn precedes(&self, other: &Self) -> (r: bool) {
        proof {
            assert(order::Ordered::before(self.model(), other.model()) == (self.model()
                < other.model()));
        }
        match self {
            Role::ArrayItem => *other != Role::ArrayItem,
            Role::Object => *other == Role::RootCollection,
            Role::RootCollection => false,
        }
    }
}

/// What has been recorded, entry by entry: objects by path, the values of their fields, the
/// members of arrays by path and depth, the schemas of items by role, path and canonical text,
/// the canonical texts of items by position, and the fields of items. Paths and field names
/// can be given as texts or by numbers that stand for them.
pub ghost struct Log<P, F> {
    pub objects: Seq<(P, ())>,
    pub fields: Seq<((P, F), Json)>,
    pub members: Seq<((P, nat), Json)>,
    pub items: Seq<(((nat, P), Seq<char>), Seq<(Seq<char>, Seq<char>)>)>,
    pub refs: Seq<(((nat, P), Seq<nat>), Seq<char>)>,
    pub item_fields: Seq<((((nat, P), Seq<char>), F), ())>,
}

pub open spec fn empty_log<P, F>() -> Log<P, F> {
    Log {
        objects: Seq::empty(),
        fields: Seq::empty(),
        members: Seq::empty(),
        items: Seq::empty(),
        refs: Seq::empty(),
        item_fields: Seq::empty(),
    }
}

/// `a`, then `b`.
pub open spec fn joined_logs<P, F>(a: Log<P, F>, b: Log<P, F>) -> Log<P, F> {
    Log {
        objects: a.objects + b.objects,
        fields: a.fields + b.fields,
        members: a.members + b.members,
        items: a.items + b.items,
        refs: a.refs + b.refs,
        item_fields: a.item_fields + b.item_fields,
    }
}

/// The number of entries.
pub open spec fn log_size<P, F>(log: Log<P, F>) -> nat {
    log.objects.len() + log.fields.len() + log.members.len() + log.items.len() + log.refs.len()
        + log.item_fields.len()
}

/// No first component occurs more often than an `i64` can tell.
pub open spec fn counts_fit<K, V>(pairs: Seq<(K, V)>) -> bool {
    forall|k: K| (#[trigger] order::under(pairs, k)).len() <= i64::MAX
}

/// The depths of array members are below the largest `u64`.
pub open spec fn depths_fit<P>(members: Seq<((P, nat), Json)>) -> bool {
    forall|i: int| 0 <= i < members.len() ==> (#[trigger] members[i]).0.1 < u64::MAX
}

/// Each single count fits in an `i64`, and so do the depths in a `u64`.
pub open spec fn facts_fit<P, F>(log: Log<P, F>) -> bool {
    &&& counts_fit(log.objects)
    &&& counts_fit(log.fields)
    &&& counts_fit(log.members)
    &&& counts_fit(log.items)
    &&& counts_fit(log.item_fields)
    &&& depths_fit(log.members)
}

/// `a` is how `b` starts, in each of its lists.
pub open spec fn log_starts<P, F>(a: Log<P, F>, b: Log<P, F>) -> bool {
    &&& a.objects.is_prefix_of(b.objects)
    &&& a.fields.is_prefix_of(b.fields)
    &&& a.members.is_prefix_of(b.members)
    &&& a.items.is_prefix_of(b.items)
    &&& a.refs.is_prefix_of(b.refs)
    &&& a.item_fields.is_prefix_of(b.item_fields)
}

pub proof fn lemma_counts_prefix<K, V>(a: Seq<(K, V)>, b: Seq<(K, V)>)
    requires
        a.is_prefix_of(b),
        counts_fit(b),
    ensures
        counts_fit(a),
{
    assert forall|k: K| (#[trigger] order::under(a, k)).len() <= i64::MAX by {
        assert(b =~= a + b.skip(a.len() as int));
        order::lemma_under_concat(a, b.skip(a.len() as int), k);
        assert(order::under(b, k).len() <= i64::MAX);
    }
}

/// What a log starts with fits if the log does.
pub proof fn lemma_starts_fit<P, F>(a: Log<P, F>, b: Log<P, F>)
    requires
        log_starts(a, b),
        facts_fit(b),
    ensures
        facts_fit(a),
{
    lemma_counts_prefix(a.objects, b.objects);
    lemma_counts_prefix(a.fields, b.fields);
    lemma_counts_prefix(a.members, b.members);
    lemma_counts_prefix(a.items, b.items);
    lemma_counts_prefix(a.item_fields, b.item_fields);
    assert forall|i: int| 0 <= i < a.members.len() implies (#[trigger] a.members[i]).0.1
        < u64::MAX by {
        assert(a.members[i] == b.members[i]);
    }
}

pub proof fn lemma_starts_joined<P, F>(s: Log<P, F>, a: Log<P, F>, b: Log<P, F>)
    requires
        log_starts(a, b),
    ensures
        log_starts(joined_logs(s, a), joined_logs(s, b)),
{
}

pub proof fn lemma_starts_concat<P, F>(a: Log<P, F>, b: Log<P, F>)
    ensures
        log_starts(a, joined_logs(a, b)),
{
}

/// How many values there were, and of which kinds.
#[derive(Clone, Copy, Debug)]
pub struct ValueAggregate {
    pub count: i64,
    pub counts: ValueTypeCounts,
}

/// A schema of items, and how many items have it.
pub struct ItemSchemaCountAggregate {
    pub schema: Vec<(String, String)>,
    pub object_count: i64,
}

/// The counts are those of the first components.
pub open spec fn counts_entries<K: Key, V>(m: OrdMap<K, i64>, pairs: Seq<(K::Model, V)>) -> bool {
    &&& m.wf()
    &&& forall|k: K::Model| #[trigger]
        m.map().contains_key(k) <==> order::firsts(pairs).contains(k)
    &&& forall|k: K::Model| #[trigger]
        m.map().contains_key(k) ==> m.map()[k] == order::under(pairs, k).len()
}

/// The aggregates are those of the values under each first component.
pub open spec fn sums_values<K: Key>(
    m: OrdMap<K, ValueAggregate>,
    pairs: Seq<(K::Model, Json)>,
) -> bool {
    &&& m.wf()
    &&& forall|k: K::Model| #[trigger]
        m.map().contains_key(k) <==> order::firsts(pairs).contains(k)
    &&& forall|k: K::Model| #[trigger]
        m.map().contains_key(k) ==> m.map()[k].count == order::under(pairs, k).len()
            && m.map()[k].counts.tally() == kinds::tally(order::under(pairs, k))
}

/// The aggregates are those of the schemas under each first component.
pub open spec fn sums_schemas<K: Key>(
    m: OrdMap<K, ItemSchemaCountAggregate>,
    pairs: Seq<(K::Model, Seq<(Seq<char>, Seq<char>)>)>,
) -> bool {
    &&& m.wf()
    &&& forall|k: K::Model| #[trigger]
        m.map().contains_key(k) <==> order::firsts(pairs).contains(k)
    &&& forall|k: K::Model| #[trigger]
        m.map().contains_key(k) ==> m.map()[k].object_count == order::under(pairs, k).len()
            && json::schema_model(m.map()[k].schema@) == order::under(pairs, k)[0]
}

/// The texts are the last ones under each first component.
pub open spec fn keeps_last<K: Key>(
    m: OrdMap<K, String>,
    pairs: Seq<(K::Model, Seq<char>)>,
) -> bool {
    m.wf() && index::texts_of(m) == index::last_wins(pairs)
}

fn count_entry<K: Key, V>(m: &mut OrdMap<K, i64>, key: K, Ghost(pairs): Ghost<
    Seq<(K::Model, V)>,
>, Ghost(v): Ghost<V>) -> (r: bool)
    requires
        counts_entries(*old(m), pairs),
    ensures
        r ==> counts_entries(*final(m), pairs.push((key.model(), v))),
        !r ==> !counts_fit(pairs.push((key.model(), v))),
{
    let ghost before = *m;
    let ghost k = key.model();
    proof {
        lemma_firsts_push(pairs, (k, v));
        statistics::lemma_under_len(pairs, k);
        order::lemma_under_nonempty(pairs, k);
        assert(!before.map().contains_key(k) ==> order::under(pairs, k).len() == 0);
    }
    let count: i64 = match m.get(&key) {
        Some(n) => *n,
        None => 0,
    };
    if count == i64::MAX {
        assert(order::under(pairs.push((k, v)), k).len() > i64::MAX);
        return false;
    }
    m.insert(key, count + 1);
    true
}

pub proof fn lemma_firsts_push<K, V>(pairs: Seq<(K, V)>, pair: (K, V))
    ensures
        forall|k: K|
            order::firsts(pairs.push(pair)).contains(k) <==> (order::firsts(pairs).contains(k) || k
                == pair.0),
        forall|k: K| #[trigger]
            order::under(pairs.push(pair), k) == if k == pair.0 {
                order::under(pairs, k).push(pair.1)
            } else {
                order::under(pairs, k)
            },
{
    let more = pairs.push(pair);
    assert(more.drop_last() =~= pairs);
    assert forall|k: K|
        order::firsts(pairs.push(pair)).contains(k) <==> (order::firsts(pairs).contains(k) || k
            == pair.0) by {
        order::lemma_under_nonempty(more, k);
        order::lemma_under_nonempty(pairs, k);
    }
}

fn sum_value<K: Key>(m: &mut OrdMap<K, ValueAggregate>, key: K, value: &JsonValue, Ghost(
    pairs,
): Ghost<Seq<(K::Model, Json)>>) -> (r: bool)
    requires
        sums_values(*old(m), pairs),
    ensures
        r ==> sums_values(*final(m), pairs.push((key.model(), json::model(*value)))),
        !r ==> !counts_fit(pairs.push((key.model(), json::model(*value)))),
{
    let ghost k = key.model();
    let ghost so_far = order::under(pairs, k);
    let ghost before = *m;
    proof {
        lemma_firsts_push(pairs, (k, json::model(*value)));
        statistics::lemma_under_len(pairs, k);
        order::lemma_under_nonempty(pairs, k);
        kinds::lemma_tally(so_far);
        assert(so_far.push(json::model(*value)).drop_last() =~= so_far);
        assert(!before.map().contains_key(k) ==> so_far.len() == 0);
    }
    let aggregate = match m.get(&key) {
        Some(old) => {
            if old.count == i64::MAX {
                assert(order::under(pairs.push((k, json::model(*value))), k).len() > i64::MAX);
                return false;
            }
            let mut counts = old.counts;
            counts.add(ValueTypeCounts::single(value));
            ValueAggregate { count: old.count + 1, counts }
        },
        None => ValueAggregate { count: 1, counts: ValueTypeCounts::single(value) },
    };
    m.insert(key, aggregate);
    true
}

fn sum_schema<K: Key>(
    m: &mut OrdMap<K, ItemSchemaCountAggregate>,
    key: K,
    schema: Vec<(String, String)>,
    Ghost(pairs): Ghost<Seq<(K::Model, Seq<(Seq<char>, Seq<char>)>)>>,
) -> (r: bool)
    requires
        sums_schemas(*old(m), pairs),
    ensures
        r ==> sums_schemas(*final(m), pairs.push((key.model(), json::schema_model(schema@)))),
        !r ==> !counts_fit(pairs.push((key.model(), json::schema_model(schema@)))),
{
    let ghost k = key.model();
    let ghost so_far = order::under(pairs, k);
    let ghost before = *m;
    proof {
        lemma_firsts_push(pairs, (k, json::schema_model(schema@)));
        statistics::lemma_under_len(pairs, k);
        order::lemma_under_nonempty(pairs, k);
        assert(!before.map().contains_key(k) ==> so_far.len() == 0);
    }
    let aggregate = match m.get(&key) {
        Some(old) => {
            if old.object_count == i64::MAX {
                assert(order::under(
                    pairs.push((k, json::schema_model(schema@))),
                    k,
                ).len() > i64::MAX);
                return false;
            }
            ItemSchemaCountAggregate {
                schema: crate::records::copy_schema(&old.schema),
                object_count: old.object_count + 1,
            }
        },
        None => ItemSchemaCountAggregate { schema, object_count: 1 },
    };
    m.insert(key, aggregate);
    true
}

fn keep_last<K: Key>(m: &mut OrdMap<K, String>, key: K, value: String, Ghost(pairs): Ghost<
    Seq<(K::Model, Seq<char>)>,
>)
    requires
        keeps_last(*old(m), pairs),
    ensures
        keeps_last(*final(m), pairs.push((key.model(), value@))),
{
    let ghost before = *m;
    m.insert(key, value);
    proof {
        assert(pairs.push((key.model(), value@)).drop_last() =~= pairs);
        assert(index::texts_of(*m) =~= index::texts_of(before).insert(key.model(), value@));
    }
}

/// The tables, by whatever stands for paths and field names.
pub struct Tables<P: Key, F: Key> {
    pub object_totals: OrdMap<P, i64>,
    pub object_field_facts: OrdMap<(P, F), ValueAggregate>,
    pub array_member_facts: OrdMap<(P, u64), ValueAggregate>,
    pub item_schema_counts: OrdMap<((Role, P), String), ItemSchemaCountAggregate>,
    pub item_schema_index_refs: OrdMap<((Role, P), Vec<usize>), String>,
    pub item_schema_field_counts: OrdMap<(((Role, P), String), F), i64>,
}

impl<P: Key, F: Key> Tables<P, F> {
    /// The tables hold what `log` records.
    pub open spec fn holds(self, log: Log<P::Model, F::Model>) -> bool {
        &&& counts_entries(self.object_totals, log.objects)
        &&& sums_values(self.object_field_facts, log.fields)
        &&& sums_values(self.array_member_facts, log.members)
        &&& sums_schemas(self.item_schema_counts, log.items)
        &&& keeps_last(self.item_schema_index_refs, log.refs)
        &&& counts_entries(self.item_schema_field_counts, log.item_fields)
    }

    /// Every key stands for something that occurred.
    pub open spec fn wf(self) -> bool {
        &&& self.object_totals.wf()
        &&& self.object_field_facts.wf()
        &&& self.array_member_facts.wf()
        &&& self.item_schema_counts.wf()
        &&& self.item_schema_index_refs.wf()
        &&& self.item_schema_field_counts.wf()
        &&& forall|k: P::Model| #[trigger]
            self.object_totals.map().contains_key(k) ==> self.object_totals.map()[k] > 0
        &&& forall|k: (P::Model, F::Model)| #[trigger]
            self.object_field_facts.map().contains_key(k) ==> self.object_field_facts.map()[k].count
                > 0
        &&& forall|k: ((nat, P::Model), Seq<char>)| #[trigger]
            self.item_schema_counts.map().contains_key(k)
                ==> self.item_schema_counts.map()[k].object_count > 0
        &&& forall|k: (((nat, P::Model), Seq<char>), F::Model)| #[trigger]
            self.item_schema_field_counts.map().contains_key(k)
                ==> self.item_schema_field_counts.map()[k] > 0
    }

    pub proof fn lemma_holds(self, log: Log<P::Model, F::Model>)
        requires
            self.holds(log),
        ensures
            self.wf(),
    {
        assert forall|k: P::Model| #[trigger] self.object_totals.map().contains_key(k) implies
            self.object_totals.map()[k] > 0 by {
            order::lemma_under_nonempty(log.objects, k);
        }
        assert forall|k: (P::Model, F::Model)| #[trigger]
            self.object_field_facts.map().contains_key(k) implies
            self.object_field_facts.map()[k].count > 0 by {
            order::lemma_under_nonempty(log.fields, k);
        }
        assert forall|k: ((nat, P::Model), Seq<char>)| #[trigger]
            self.item_schema_counts.map().contains_key(k) implies
            self.item_schema_counts.map()[k].object_count > 0 by {
            order::lemma_under_nonempty(log.items, k);
        }
        assert forall|k: (((nat, P::Model), Seq<char>), F::Model)| #[trigger]
            self.item_schema_field_counts.map().contains_key(k) implies
            self.item_schema_field_counts.map()[k] > 0 by {
            order::lemma_under_nonempty(log.item_fields, k);
        }
    }

    /// What is held has been counted.
    pub proof fn lemma_counted(self, log: Log<P::Model, F::Model>)
        requires
            self.holds(log),
        ensures
            counts_fit(log.objects),
            counts_fit(log.fields),
            counts_fit(log.members),
            counts_fit(log.items),
            counts_fit(log.item_fields),
    {
        assert forall|k: P::Model| (#[trigger] order::under(log.objects, k)).len() <= i64::MAX by {
            order::lemma_under_nonempty(log.objects, k);
            assert(self.object_totals.map().contains_key(k) <==> order::firsts(
                log.objects,
            ).contains(k));
        }
        assert forall|k: (P::Model, F::Model)| (#[trigger] order::under(log.fields, k)).len()
            <= i64::MAX by {
            order::lemma_under_nonempty(log.fields, k);
            assert(self.object_field_facts.map().contains_key(k) <==> order::firsts(
                log.fields,
            ).contains(k));
        }
        assert forall|k: (P::Model, nat)| (#[trigger] order::under(log.members, k)).len()
            <= i64::MAX by {
            order::lemma_under_nonempty(log.members, k);
            assert(self.array_member_facts.map().contains_key(k) <==> order::firsts(
                log.members,
            ).contains(k));
        }
        assert forall|k: ((nat, P::Model), Seq<char>)|
            (#[trigger] order::under(log.items, k)).len() <= i64::MAX by {
            order::lemma_under_nonempty(log.items, k);
            assert(self.item_schema_counts.map().contains_key(k) <==> order::firsts(
                log.items,
            ).contains(k));
        }
        assert forall|k: (((nat, P::Model), Seq<char>), F::Model)|
            (#[trigger] order::under(log.item_fields, k)).len() <= i64::MAX by {
            order::lemma_under_nonempty(log.item_fields, k);
            assert(self.item_schema_field_counts.map().contains_key(k) <==> order::firsts(
                log.item_fields,
            ).contains(k));
        }
    }

    pub fn new() -> (r: Self)
        ensures
            r.wf(),
            r.holds(empty_log()),
    {
        let r = Tables {
            object_totals: OrdMap::new(),
            object_field_facts: OrdMap::new(),
            array_member_facts: OrdMap::new(),
            item_schema_counts: OrdMap::new(),
            item_schema_index_refs: OrdMap::new(),
            item_schema_field_counts: OrdMap::new(),
        };
        proof {
            assert(index::texts_of(r.item_schema_index_refs) =~= Map::empty());
        }
        r
    }

    pub(crate) fn add_object_total(&mut self, path_base: P, Ghost(log): Ghost<
        Log<P::Model, F::Model>,
    >) -> (r: bool)
        requires
            old(self).holds(log),
        ensures
            r ==> final(self).holds(
                (Log { objects: log.objects.push((path_base.model(), ())), ..log }),
            ),
            !r ==> !counts_fit(log.objects.push((path_base.model(), ()))),
    {
        count_entry(&mut self.object_totals, path_base, Ghost(log.objects), Ghost(()))
    }

    pub(crate) fn add_object_field_fact(
        &mut self,
        path_base: P,
        field: F,
        value: &JsonValue,
        Ghost(log): Ghost<Log<P::Model, F::Model>>,
    ) -> (r: bool)
        requires
            old(self).holds(log),
        ensures
            r ==> final(self).holds(
                (Log {
                    fields: log.fields.push(
                        ((path_base.model(), field.model()), json::model(*value)),
                    ),
                    ..log
                }),
            ),
            !r ==> !counts_fit(
                log.fields.push(
                    ((path_base.model(), field.model()), json::model(*value)),
                ),
            ),
    {
        sum_value(&mut self.object_field_facts, (path_base, field), value, Ghost(log.fields))
    }

    pub(crate) fn add_array_member_fact(
        &mut self,
        path_base: P,
        depth: u64,
        value: &JsonValue,
        Ghost(log): Ghost<Log<P::Model, F::Model>>,
    ) -> (r: bool)
        requires
            old(self).holds(log),
        ensures
            r ==> final(self).holds(
                (Log {
                    members: log.members.push(
                        ((path_base.model(), depth as nat), json::model(*value)),
                    ),
                    ..log
                }),
            ),
            !r ==> !counts_fit(
                log.members.push(
                    ((path_base.model(), depth as nat), json::model(*value)),
                ),
            ),
    {
        sum_value(&mut self.array_member_facts, (path_base, depth), value, Ghost(log.members))
    }

    pub(crate) fn add_item_schema_count(
        &mut self,
        role: Role,
        path_base: P,
        canonical: String,
        schema: Vec<(String, String)>,
        Ghost(log): Ghost<Log<P::Model, F::Model>>,
    ) -> (r: bool)
        requires
            old(self).holds(log),
        ensures
            r ==> final(self).holds(
                (Log {
                    items: log.items.push(
                        (
                            ((role_rank(role), path_base.model()), canonical@),
                            json::schema_model(schema@),
                        ),
                    ),
                    ..log
                }),
            ),
            !r ==> !counts_fit(
                log.items.push(
                    (
                        ((role_rank(role), path_base.model()), canonical@),
                        json::schema_model(schema@),
                    ),
                ),
            ),
    {
        sum_schema(
            &mut self.item_schema_counts,
            ((role, path_base), canonical),
            schema,
            Ghost(log.items),
        )
    }

    pub(crate) fn set_item_schema_index_ref(
        &mut self,
        role: Role,
        path_base: P,
        index_path: Vec<usize>,
        canonical: String,
        Ghost(log): Ghost<Log<P::Model, F::Model>>,
    )
        requires
            old(self).holds(log),
        ensures
            final(self).holds(
                (Log {
                    refs: log.refs.push(
                        (
                            (
                                (role_rank(role), path_base.model()),
                                text::models(index_path@),
                            ),
                            canonical@,
                        ),
                    ),
                    ..log
                }),
            ),
    {
        keep_last(
            &mut self.item_schema_index_refs,
            ((role, path_base), index_path),
            canonical,
            Ghost(log.refs),
        );
    }

    pub(crate) fn add_item_schema_field_count(
        &mut self,
        role: Role,
        path_base: P,
        canonical: String,
        field: F,
        Ghost(log): Ghost<Log<P::Model, F::Model>>,
    ) -> (r: bool)
        requires
            old(self).holds(log),
        ensures
            r ==> final(self).holds(
                (Log {
                    item_fields: log.item_fields.push(
                        (
                            (
                                ((role_rank(role), path_base.model()), canonical@),
                                field.model(),
                            ),
                            (),
                        ),
                    ),
                    ..log
                }),
            ),
            !r ==> !counts_fit(
                log.item_fields.push(
                    (
                        (
                            ((role_rank(role), path_base.model()), canonical@),
                            field.model(),
                        ),
                        (),
                    ),
                ),
            ),
    {
        count_entry(
            &mut self.item_schema_field_counts,
            (((role, path_base), canonical), field),
            Ghost(log.item_fields),
            Ghost(()),
        )
    }
}

} // verus!
