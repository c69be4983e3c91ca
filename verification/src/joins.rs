//! Tables of two logs joined into the tables of both.

use crate::index;
use crate::json;
use crate::json::Json;
use crate::kinds;
use crate::kinds::ValueTypeCounts;
use crate::order;
use crate::ordmap::{united, Key, OrdMap};
use crate::overrides;
use crate::records::copy_schema;
use crate::statistics;
use crate::tables;
use crate::tables::{ItemSchemaCountAggregate, Tables, ValueAggregate};
use vstd::prelude::*;

verus! {

/// A value of a table that another one for the same key can be added to.
trait Addable: Sized {
    /// `r` is `a` and `b` together.
    spec fn together(a: Self, b: Self, r: Self) -> bool;

    /// Some count of `a` and `b` together is too large.
    spec fn exceeds(a: Self, b: Self) -> bool;

    fn plus(&self, more: &Self) -> (r: Option<Self>)
        ensures
            match r {
                Some(s) => Self::together(*self, *more, s),
                None => Self::exceeds(*self, *more),
            },
    ;
}

spec fn too_large(a: int, b: int) -> bool {
    a + b > i64::MAX || a + b < i64::MIN
}

impl Addable for i64 {
    spec fn together(a: i64, b: i64, r: i64) -> bool {
        r == a + b
    }

    spec fn exceeds(a: i64, b: i64) -> bool {
        too_large(a as int, b as int)
    }

    fn plus(&self, more: &i64) -> (r: Option<i64>) {
        self.checked_add(*more)
    }
}

impl Addable for ValueAggregate {
    spec fn together(a: Self, b: Self, r: Self) -> bool {
        r.count == a.count + b.count && r.counts.tally() == kinds::tally_sum(
            a.counts.tally(),
            b.counts.tally(),
        )
    }

    spec fn exceeds(a: Self, b: Self) -> bool {
        too_large(a.count as int, b.count as int) || !kinds::tally_within(
            kinds::tally_sum(a.counts.tally(), b.counts.tally()),
            i64::MIN as int,
            i64::MAX as int,
        )
    }

    fn plus(&self, more: &Self) -> (r: Option<Self>) {
        let count = match self.count.checked_add(more.count) {
            Some(n) => n,
            None => {
                return None;
            },
        };
        let a = &self.counts;
        let b = &more.counts;
        match (
            a.array.checked_add(b.array),
            a.boolean.checked_add(b.boolean),
            a.null.checked_add(b.null),
            a.number.checked_add(b.number),
            a.object.checked_add(b.object),
            a.string.checked_add(b.string),
        ) {
            (Some(array), Some(boolean), Some(null), Some(number), Some(object), Some(string)) => Some(
                ValueAggregate {
                    count,
                    counts: ValueTypeCounts { array, boolean, null, number, object, string },
                },
            ),
            _ => None,
        }
    }
}

impl Addable for ItemSchemaCountAggregate {
    spec fn together(a: Self, b: Self, r: Self) -> bool {
        r.object_count == a.object_count + b.object_count && json::schema_model(r.schema@)
            == json::schema_model(a.schema@)
    }

    spec fn exceeds(a: Self, b: Self) -> bool {
        too_large(a.object_count as int, b.object_count as int)
    }

    fn plus(&self, more: &Self) -> (r: Option<Self>) {
        match self.object_count.checked_add(more.object_count) {
            Some(object_count) => Some(
                ItemSchemaCountAggregate { schema: copy_schema(&self.schema), object_count },
            ),
            None => None,
        }
    }
}

/// The table holds what `a` and `b` hold, values for one key together.
spec fn is_joined<K: Key, V: Addable>(a: OrdMap<K, V>, b: OrdMap<K, V>, r: OrdMap<K, V>) -> bool {
    &&& r.wf()
    &&& forall|k: K::Model| #[trigger]
        r.map().contains_key(k) <==> a.map().contains_key(k) || b.map().contains_key(k)
    &&& forall|k: K::Model| #[trigger]
        r.map().contains_key(k) ==> if !b.map().contains_key(k) {
            r.map()[k] == a.map()[k]
        } else if !a.map().contains_key(k) {
            r.map()[k] == b.map()[k]
        } else {
            V::together(a.map()[k], b.map()[k], r.map()[k])
        }
}

/// Some values for one key are too large together.
spec fn is_too_large<K: Key, V: Addable>(a: OrdMap<K, V>, b: OrdMap<K, V>) -> bool {
    exists|k: K::Model| #[trigger]
        a.map().contains_key(k) && b.map().contains_key(k) && V::exceeds(a.map()[k], b.map()[k])
}

fn join_table<K: Key, V: Addable>(a: OrdMap<K, V>, b: OrdMap<K, V>) -> (r: Option<OrdMap<K, V>>)
    requires
        a.wf(),
        b.wf(),
    ensures
        match r {
            Some(t) => is_joined(a, b, t),
            None => is_too_large(a, b),
        },
{
    let ghost second = b;
    let ghost rows = b.entries@;
    let mut sums: Vec<(K, V)> = Vec::new();
    for row in it: b.entries
        invariant
            it.seq() == rows,
            rows == second.entries@,
            a.wf(),
            second.wf(),
            sums@.len() == it.index(),
            forall|i: int|
                0 <= i < sums@.len() ==> (#[trigger] sums@[i]).0 == rows[i].0
                    && if a.map().contains_key(rows[i].0.model()) {
                    V::together(a.map()[rows[i].0.model()], rows[i].1, sums@[i].1)
                } else {
                    sums@[i].1 == rows[i].1
                },
    {
        let ghost n = it.index() as int;
        let sum = match a.get(&row.0) {
            Some(value) => match value.plus(&row.1) {
                Some(sum) => sum,
                None => {
                    proof {
                        second.lemma_entry(n);
                        assert(a.map().contains_key(row.0.model()));
                    }
                    return None;
                },
            },
            None => row.1,
        };
        sums.push((row.0, sum));
    }
    let summed = OrdMap { entries: sums };
    proof {
        assert(summed.keys() =~= second.keys());
        assert forall|k: K::Model| #[trigger] second.map().contains_key(k) implies
            summed.map().contains_key(k) && if a.map().contains_key(k) {
            V::together(a.map()[k], second.map()[k], summed.map()[k])
        } else {
            summed.map()[k] == second.map()[k]
        } by {
            let i = second.keys().index_of(k);
            assert(second.keys()[i] == k);
            second.lemma_entry(i);
            summed.lemma_entry(i);
        }
        assert forall|k: K::Model| #[trigger]
            summed.map().contains_key(k) <==> second.map().contains_key(k) by {
            assert(summed.keys().contains(k) <==> second.keys().contains(k));
        }
    }
    Some(united(a, summed))
}

/// What stands under a key in two lists, one behind the other.
proof fn lemma_joined_under<K, V>(a: Seq<(K, V)>, b: Seq<(K, V)>, k: K)
    ensures
        order::under(a + b, k) == order::under(a, k) + order::under(b, k),
        order::firsts(a + b).contains(k) <==> order::firsts(a).contains(k) || order::firsts(
            b,
        ).contains(k),
        order::firsts(a).contains(k) <==> order::under(a, k).len() > 0,
        order::firsts(b).contains(k) <==> order::under(b, k).len() > 0,
        order::under(a, k).len() <= a.len(),
        order::under(b, k).len() <= b.len(),
{
    order::lemma_under_concat(a, b, k);
    order::lemma_under_nonempty(a, k);
    order::lemma_under_nonempty(b, k);
    order::lemma_under_nonempty(a + b, k);
    statistics::lemma_under_len(a, k);
    statistics::lemma_under_len(b, k);
}

proof fn lemma_join_counts<K: Key, V>(
    a: OrdMap<K, i64>,
    b: OrdMap<K, i64>,
    r: OrdMap<K, i64>,
    x: Seq<(K::Model, V)>,
    y: Seq<(K::Model, V)>,
)
    requires
        is_joined(a, b, r),
        tables::counts_entries(a, x),
        tables::counts_entries(b, y),
    ensures
        tables::counts_entries(r, x + y),
{
    assert forall|k: K::Model| #[trigger]
        r.map().contains_key(k) <==> order::firsts(x + y).contains(k) by {
        lemma_joined_under(x, y, k);
        assert(a.map().contains_key(k) <==> order::firsts(x).contains(k));
        assert(b.map().contains_key(k) <==> order::firsts(y).contains(k));
    }
    assert forall|k: K::Model| #[trigger] r.map().contains_key(k) implies r.map()[k]
        == order::under(x + y, k).len() by {
        lemma_joined_under(x, y, k);
        assert(a.map().contains_key(k) <==> order::firsts(x).contains(k));
        assert(b.map().contains_key(k) <==> order::firsts(y).contains(k));
    }
}

proof fn lemma_counts_fit<K: Key, V>(
    a: OrdMap<K, i64>,
    b: OrdMap<K, i64>,
    x: Seq<(K::Model, V)>,
    y: Seq<(K::Model, V)>,
)
    requires
        is_too_large(a, b),
        tables::counts_entries(a, x),
        tables::counts_entries(b, y),
    ensures
        !tables::counts_fit(x + y),
{
    let k = choose|k: K::Model| #[trigger]
        a.map().contains_key(k) && b.map().contains_key(k) && i64::exceeds(a.map()[k], b.map()[k]);
    lemma_joined_under(x, y, k);
}

proof fn lemma_tally_concat(a: Seq<Json>, b: Seq<Json>)
    ensures
        kinds::tally(a + b) == kinds::tally_sum(kinds::tally(a), kinds::tally(b)),
    decreases b.len(),
{
    if b.len() == 0 {
        assert(a + b =~= a);
    } else {
        lemma_tally_concat(a, b.drop_last());
        assert((a + b).drop_last() =~= a + b.drop_last());
        assert((a + b).last() == b.last());
    }
}

proof fn lemma_join_values<K: Key>(
    a: OrdMap<K, ValueAggregate>,
    b: OrdMap<K, ValueAggregate>,
    r: OrdMap<K, ValueAggregate>,
    x: Seq<(K::Model, Json)>,
    y: Seq<(K::Model, Json)>,
)
    requires
        is_joined(a, b, r),
        tables::sums_values(a, x),
        tables::sums_values(b, y),
    ensures
        tables::sums_values(r, x + y),
{
    assert forall|k: K::Model| #[trigger]
        r.map().contains_key(k) <==> order::firsts(x + y).contains(k) by {
        lemma_joined_under(x, y, k);
        assert(a.map().contains_key(k) <==> order::firsts(x).contains(k));
        assert(b.map().contains_key(k) <==> order::firsts(y).contains(k));
    }
    assert forall|k: K::Model| #[trigger] r.map().contains_key(k) implies r.map()[k].count
        == order::under(x + y, k).len() && r.map()[k].counts.tally() == kinds::tally(
        order::under(x + y, k),
    ) by {
        lemma_joined_under(x, y, k);
        assert(a.map().contains_key(k) <==> order::firsts(x).contains(k));
        assert(b.map().contains_key(k) <==> order::firsts(y).contains(k));
        lemma_tally_concat(order::under(x, k), order::under(y, k));
    }
}

proof fn lemma_values_fit<K: Key>(
    a: OrdMap<K, ValueAggregate>,
    b: OrdMap<K, ValueAggregate>,
    x: Seq<(K::Model, Json)>,
    y: Seq<(K::Model, Json)>,
)
    requires
        is_too_large(a, b),
        tables::sums_values(a, x),
        tables::sums_values(b, y),
    ensures
        !tables::counts_fit(x + y),
{
    let k = choose|k: K::Model| #[trigger]
        a.map().contains_key(k) && b.map().contains_key(k) && ValueAggregate::exceeds(
            a.map()[k],
            b.map()[k],
        );
    lemma_joined_under(x, y, k);
    kinds::lemma_tally(order::under(x, k));
    kinds::lemma_tally(order::under(y, k));
}

proof fn lemma_join_schemas<K: Key>(
    a: OrdMap<K, ItemSchemaCountAggregate>,
    b: OrdMap<K, ItemSchemaCountAggregate>,
    r: OrdMap<K, ItemSchemaCountAggregate>,
    x: Seq<(K::Model, Seq<(Seq<char>, Seq<char>)>)>,
    y: Seq<(K::Model, Seq<(Seq<char>, Seq<char>)>)>,
)
    requires
        is_joined(a, b, r),
        tables::sums_schemas(a, x),
        tables::sums_schemas(b, y),
    ensures
        tables::sums_schemas(r, x + y),
{
    assert forall|k: K::Model| #[trigger]
        r.map().contains_key(k) <==> order::firsts(x + y).contains(k) by {
        lemma_joined_under(x, y, k);
        assert(a.map().contains_key(k) <==> order::firsts(x).contains(k));
        assert(b.map().contains_key(k) <==> order::firsts(y).contains(k));
    }
    assert forall|k: K::Model| #[trigger] r.map().contains_key(k) implies r.map()[k].object_count
        == order::under(x + y, k).len() && json::schema_model(r.map()[k].schema@) == order::under(
        x + y,
        k,
    )[0] by {
        lemma_joined_under(x, y, k);
        assert(a.map().contains_key(k) <==> order::firsts(x).contains(k));
        assert(b.map().contains_key(k) <==> order::firsts(y).contains(k));
    }
}

proof fn lemma_schemas_fit<K: Key>(
    a: OrdMap<K, ItemSchemaCountAggregate>,
    b: OrdMap<K, ItemSchemaCountAggregate>,
    x: Seq<(K::Model, Seq<(Seq<char>, Seq<char>)>)>,
    y: Seq<(K::Model, Seq<(Seq<char>, Seq<char>)>)>,
)
    requires
        is_too_large(a, b),
        tables::sums_schemas(a, x),
        tables::sums_schemas(b, y),
    ensures
        !tables::counts_fit(x + y),
{
    let k = choose|k: K::Model| #[trigger]
        a.map().contains_key(k) && b.map().contains_key(k) && ItemSchemaCountAggregate::exceeds(
            a.map()[k],
            b.map()[k],
        );
    lemma_joined_under(x, y, k);
}

proof fn lemma_join_last<K: Key>(
    a: OrdMap<K, String>,
    b: OrdMap<K, String>,
    r: OrdMap<K, String>,
    x: Seq<(K::Model, Seq<char>)>,
    y: Seq<(K::Model, Seq<char>)>,
)
    requires
        r.wf(),
        r.map() == a.map().union_prefer_right(b.map()),
        tables::keeps_last(a, x),
        tables::keeps_last(b, y),
    ensures
        tables::keeps_last(r, x + y),
{
    let left = index::texts_of(r);
    let right = index::last_wins(x + y);
    assert forall|k: K::Model| left.dom().contains(k) == right.dom().contains(k) by {
        overrides::lemma_last_wins_concat(x, y, k);
        assert(index::texts_of(a).contains_key(k) <==> a.map().contains_key(k));
        assert(index::texts_of(b).contains_key(k) <==> b.map().contains_key(k));
    }
    assert forall|k: K::Model| #[trigger] left.dom().contains(k) implies left[k] == right[k] by {
        overrides::lemma_last_wins_concat(x, y, k);
        assert(index::texts_of(a).contains_key(k) <==> a.map().contains_key(k));
        assert(index::texts_of(b).contains_key(k) <==> b.map().contains_key(k));
        assert(index::texts_of(r)[k] == r.map()[k]@);
    }
    assert(left =~= right);
}

/// Adds the facts of `more` to those of `given`. None if a count would pass the largest `i64`.
pub fn join_tables<P: Key, F: Key>(given: Tables<P, F>, more: Tables<P, F>) -> (r: Option<
    Tables<P, F>,
>)
    requires
        given.wf(),
        more.wf(),
    ensures
        match r {
            Some(t) => t.wf() && forall|a: tables::Log<P::Model, F::Model>, b: tables::Log<
                P::Model,
                F::Model,
            >|
                #![trigger given.holds(a), more.holds(b)]
                given.holds(a) && more.holds(b) ==> t.holds(tables::joined_logs(a, b)),
            None => forall|a: tables::Log<P::Model, F::Model>, b: tables::Log<P::Model, F::Model>|
                #![trigger given.holds(a), more.holds(b)]
                given.holds(a) && more.holds(b) ==> !tables::facts_fit(tables::joined_logs(a, b)),
        },
{
    let ghost first = given;
    let ghost second = more;
    let object_totals = match join_table(given.object_totals, more.object_totals) {
        Some(t) => t,
        None => {
            proof {
                assert forall|a: tables::Log<P::Model, F::Model>, b: tables::Log<
                    P::Model,
                    F::Model,
                >|
                    #![trigger first.holds(a), second.holds(b)]
                    first.holds(a) && second.holds(b) implies !tables::facts_fit(
                    tables::joined_logs(a, b),
                ) by {
                    lemma_counts_fit(
                        first.object_totals,
                        second.object_totals,
                        a.objects,
                        b.objects,
                    );
                }
            }
            return None;
        },
    };
    let object_field_facts = match join_table(given.object_field_facts, more.object_field_facts) {
        Some(t) => t,
        None => {
            proof {
                assert forall|a: tables::Log<P::Model, F::Model>, b: tables::Log<
                    P::Model,
                    F::Model,
                >|
                    #![trigger first.holds(a), second.holds(b)]
                    first.holds(a) && second.holds(b) implies !tables::facts_fit(
                    tables::joined_logs(a, b),
                ) by {
                    lemma_values_fit(
                        first.object_field_facts,
                        second.object_field_facts,
                        a.fields,
                        b.fields,
                    );
                }
            }
            return None;
        },
    };
    let array_member_facts = match join_table(given.array_member_facts, more.array_member_facts) {
        Some(t) => t,
        None => {
            proof {
                assert forall|a: tables::Log<P::Model, F::Model>, b: tables::Log<
                    P::Model,
                    F::Model,
                >|
                    #![trigger first.holds(a), second.holds(b)]
                    first.holds(a) && second.holds(b) implies !tables::facts_fit(
                    tables::joined_logs(a, b),
                ) by {
                    lemma_values_fit(
                        first.array_member_facts,
                        second.array_member_facts,
                        a.members,
                        b.members,
                    );
                }
            }
            return None;
        },
    };
    let item_schema_counts = match join_table(given.item_schema_counts, more.item_schema_counts) {
        Some(t) => t,
        None => {
            proof {
                assert forall|a: tables::Log<P::Model, F::Model>, b: tables::Log<
                    P::Model,
                    F::Model,
                >|
                    #![trigger first.holds(a), second.holds(b)]
                    first.holds(a) && second.holds(b) implies !tables::facts_fit(
                    tables::joined_logs(a, b),
                ) by {
                    lemma_schemas_fit(
                        first.item_schema_counts,
                        second.item_schema_counts,
                        a.items,
                        b.items,
                    );
                }
            }
            return None;
        },
    };
    let item_schema_field_counts = match join_table(
        given.item_schema_field_counts,
        more.item_schema_field_counts,
    ) {
        Some(t) => t,
        None => {
            proof {
                assert forall|a: tables::Log<P::Model, F::Model>, b: tables::Log<
                    P::Model,
                    F::Model,
                >|
                    #![trigger first.holds(a), second.holds(b)]
                    first.holds(a) && second.holds(b) implies !tables::facts_fit(
                    tables::joined_logs(a, b),
                ) by {
                    lemma_counts_fit(
                        first.item_schema_field_counts,
                        second.item_schema_field_counts,
                        a.item_fields,
                        b.item_fields,
                    );
                }
            }
            return None;
        },
    };
    let item_schema_index_refs = united(given.item_schema_index_refs, more.item_schema_index_refs);
    let t = Tables {
        object_totals,
        object_field_facts,
        array_member_facts,
        item_schema_counts,
        item_schema_index_refs,
        item_schema_field_counts,
    };
    proof {
        assert forall|a: tables::Log<P::Model, F::Model>, b: tables::Log<P::Model, F::Model>|
            #![trigger first.holds(a), second.holds(b)]
            first.holds(a) && second.holds(b) implies t.holds(tables::joined_logs(a, b)) by {
            lemma_join_counts(
                first.object_totals,
                second.object_totals,
                object_totals,
                a.objects,
                b.objects,
            );
            lemma_join_values(
                first.object_field_facts,
                second.object_field_facts,
                object_field_facts,
                a.fields,
                b.fields,
            );
            lemma_join_values(
                first.array_member_facts,
                second.array_member_facts,
                array_member_facts,
                a.members,
                b.members,
            );
            lemma_join_schemas(
                first.item_schema_counts,
                second.item_schema_counts,
                item_schema_counts,
                a.items,
                b.items,
            );
            lemma_join_last(
                first.item_schema_index_refs,
                second.item_schema_index_refs,
                item_schema_index_refs,
                a.refs,
                b.refs,
            );
            lemma_join_counts(
                first.item_schema_field_counts,
                second.item_schema_field_counts,
                item_schema_field_counts,
                a.item_fields,
                b.item_fields,
            );
        }
    }
    Some(t)
}

} // verus!
