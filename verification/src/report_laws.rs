//! What holds of reports: which rows they have, in which order, and what their text says.

use crate::order;
use crate::order::Ordered;
use crate::ordmap::Key;
use crate::report;
use crate::report::{
    FieldCount, IndexTables, ReportData, ReportDetail, ReportSummary, SchemaArrayIndexRef,
    SchemaCount, SchemaObjectPath, SummaryCounts,
};
use crate::text;
use vstd::prelude::*;

verus! {

/// The number that the index has for a schema, zero if it has none.
pub open spec fn objects_in(t: IndexTables, p: Seq<char>) -> int {
    match t.object_counts.map().contains_key(p) {
        true => t.object_counts.map()[p] as int,
        false => 0,
    }
}

/// The schema `p` has more objects than `q`, or as many and the smaller path.
pub open spec fn ahead(t: IndexTables, p: Seq<char>, q: Seq<char>) -> bool {
    objects_in(t, p) > objects_in(t, q) || (objects_in(t, p) == objects_in(t, q) && p.before(q))
}

/// Some object path leads to the schema `p`, and the index has it.
pub open spec fn is_used(t: IndexTables, p: Seq<char>) -> bool {
    t.definitions.map().contains_key(p) && exists|o: Seq<char>| #[trigger]
        t.schema_paths.map().contains_key(o) && t.schema_paths.map()[o]@ == p
}

proof fn lemma_rank(a: int, b: int)
    requires
        i64::MIN <= a <= i64::MAX,
        i64::MIN <= b <= i64::MAX,
    ensures
        report::rank(a) < report::rank(b) <==> a > b,
        report::rank(a) == report::rank(b) <==> a == b,
{
}

pub proof fn lemma_ahead(t: IndexTables, p: Seq<char>, q: Seq<char>)
    ensures
        (report::rank(t.count_of(p)), p).before((report::rank(t.count_of(q)), q)) <==> ahead(t, p, q),
        report::rank(t.count_of(p)) == report::rank(t.count_of(q)) <==> objects_in(t, p)
            == objects_in(t, q),
{
    lemma_rank(objects_in(t, p), objects_in(t, q));
    assert(t.count_of(p) == objects_in(t, p));
    assert(t.count_of(q) == objects_in(t, q));
}

proof fn lemma_in_use(t: IndexTables, o: Seq<char>)
    requires
        t.wf(),
        t.schema_paths.map().contains_key(o),
    ensures
        t.in_use(t.schema_paths.map()[o]@),
{
}

proof fn lemma_schemas(t: IndexTables, n: int, k: (nat, Seq<char>))
    requires
        t.wf(),
        0 <= n <= t.schema_paths.entries@.len(),
    ensures
        report::schema_list(t, n).contains(k) <==> k.0 == report::rank(objects_in(t, k.1))
            && t.definitions.map().contains_key(k.1) && exists|j: int|
            0 <= j < n && (#[trigger] t.schema_paths.entries@[j]).1@ == k.1,
    decreases n,
{
    if n > 0 {
        let p = t.schema_paths.entries@[n - 1].1@;
        let less = report::schema_list(t, n - 1);
        lemma_schemas(t, n - 1, k);
        assert(t.count_of(p) == objects_in(t, p));
        let more = less.push((report::rank(t.count_of(p)), p));
        assert(more[less.len() as int] == (report::rank(t.count_of(p)), p));
        if less.contains(k) {
            let i = choose|i: int| 0 <= i < less.len() && less[i] == k;
            assert(more[i] == k);
        }
        if more.contains(k) && k != (report::rank(t.count_of(p)), p) {
            let i = choose|i: int| 0 <= i < more.len() && more[i] == k;
            assert(less[i] == k);
        }
    }
}

/// A report has one row for each schema that the index has and some object path leads to, with
/// its kind and its object count. The schemas with the most objects stand first, those with
/// as many by their paths.
pub proof fn law_report_lists_the_schemas(t: IndexTables, r: ReportData)
    requires
        t.wf(),
        report::reports(t, r),
    ensures
        forall|i: int|
            0 <= i < r.schemas@.len() ==> is_used(t, (#[trigger] r.schemas@[i]).schema_path@)
                && r.schemas@[i].schema_kind@ == t.definitions.map()[r.schemas@[i].schema_path@]@
                && r.schemas@[i].object_count == objects_in(t, r.schemas@[i].schema_path@),
        forall|p: Seq<char>| #[trigger]
            is_used(t, p) ==> exists|i: int|
                0 <= i < r.schemas@.len() && (#[trigger] r.schemas@[i]).schema_path@ == p,
        forall|i: int, j: int|
            0 <= i < j < r.schemas@.len() ==> ahead(
                t,
                (#[trigger] r.schemas@[i]).schema_path@,
                (#[trigger] r.schemas@[j]).schema_path@,
            ),
{
    let n = t.schema_paths.entries@.len() as int;
    let list = report::schema_list(t, n);
    let rows = report::schema_order(t);
    order::lemma_sorted_set(list);
    assert forall|i: int| 0 <= i < r.schemas@.len() implies is_used(
        t,
        (#[trigger] r.schemas@[i]).schema_path@,
    ) && r.schemas@[i].object_count == objects_in(t, r.schemas@[i].schema_path@) by {
        assert(rows.contains(rows[i]));
        lemma_schemas(t, n, rows[i]);
        let j = choose|j: int| 0 <= j < n && (#[trigger] t.schema_paths.entries@[j]).1@ == rows[i].1;
        t.schema_paths.lemma_entry(j);
        assert(t.schema_paths.map().contains_key(t.schema_paths.entries@[j].0@));
    }
    assert forall|p: Seq<char>| #[trigger] is_used(t, p) implies exists|i: int|
        0 <= i < r.schemas@.len() && (#[trigger] r.schemas@[i]).schema_path@ == p by {
        let o = choose|o: Seq<char>| #[trigger]
            t.schema_paths.map().contains_key(o) && t.schema_paths.map()[o]@ == p;
        let j = t.schema_paths.keys().index_of(o);
        assert(t.schema_paths.keys().contains(o));
        assert(t.schema_paths.entries@[j].1@ == p);
        let k = (report::rank(objects_in(t, p)), p);
        lemma_schemas(t, n, k);
        assert(rows.contains(k));
        let i = choose|i: int| 0 <= i < rows.len() && rows[i] == k;
        assert(r.schemas@[i].schema_path@ == p);
    }
    assert forall|i: int, j: int| 0 <= i < j < r.schemas@.len() implies ahead(
        t,
        (#[trigger] r.schemas@[i]).schema_path@,
        (#[trigger] r.schemas@[j]).schema_path@,
    ) by {
        assert(rows.contains(rows[i]) && rows.contains(rows[j]));
        lemma_schemas(t, n, rows[i]);
        lemma_schemas(t, n, rows[j]);
        assert(rows[i].before(rows[j]));
        lemma_ahead(t, rows[i].1, rows[j].1);
        assert(t.count_of(rows[i].1) == objects_in(t, rows[i].1));
        assert(t.count_of(rows[j].1) == objects_in(t, rows[j].1));
    }
}

proof fn lemma_paths(t: IndexTables, n: int, k: ((nat, Seq<char>), Seq<char>))
    requires
        t.wf(),
        0 <= n <= t.schema_paths.entries@.len(),
    ensures
        report::path_list(t, n).contains(k) <==> k.0.0 == report::rank(objects_in(t, k.0.1))
            && t.definitions.map().contains_key(k.0.1) && exists|j: int|
            0 <= j < n && (#[trigger] t.schema_paths.entries@[j]).0@ == k.1
                && t.schema_paths.entries@[j].1@ == k.0.1,
    decreases n,
{
    if n > 0 {
        let row = t.schema_paths.entries@[n - 1];
        let p = row.1@;
        let less = report::path_list(t, n - 1);
        lemma_paths(t, n - 1, k);
        t.schema_paths.lemma_entry(n - 1);
        lemma_in_use(t, row.0@);
        assert(t.listed(p) == t.definitions.map().contains_key(p));
        assert(t.count_of(p) == objects_in(t, p));
        let new = ((report::rank(t.count_of(p)), p), row.0@);
        let more = less.push(new);
        assert(more[less.len() as int] == new);
        if less.contains(k) {
            let i = choose|i: int| 0 <= i < less.len() && less[i] == k;
            assert(more[i] == k);
        }
        if more.contains(k) && k != new {
            let i = choose|i: int| 0 <= i < more.len() && more[i] == k;
            assert(less[i] == k);
        }
    }
}

/// A report has one row for each object path whose schema the index has, with the path of that
/// schema. They stand in the order of the schemas, and by object path for each.
pub proof fn law_report_lists_the_object_paths(t: IndexTables, r: ReportData)
    requires
        t.wf(),
        report::reports(t, r),
    ensures
        forall|i: int|
            0 <= i < r.object_paths@.len() ==> t.schema_paths.map().contains_key(
                (#[trigger] r.object_paths@[i]).object_path@,
            ) && t.schema_paths.map()[r.object_paths@[i].object_path@]@
                == r.object_paths@[i].schema_path@ && t.definitions.map().contains_key(
                r.object_paths@[i].schema_path@,
            ),
        forall|o: Seq<char>| #[trigger]
            t.schema_paths.map().contains_key(o) && t.definitions.map().contains_key(
                t.schema_paths.map()[o]@,
            ) ==> exists|i: int|
                0 <= i < r.object_paths@.len() && (#[trigger] r.object_paths@[i]).object_path@ == o,
        forall|i: int, j: int|
            0 <= i < j < r.object_paths@.len() ==> ahead(
                t,
                (#[trigger] r.object_paths@[i]).schema_path@,
                (#[trigger] r.object_paths@[j]).schema_path@,
            ) || (r.object_paths@[i].schema_path@ == r.object_paths@[j].schema_path@
                && r.object_paths@[i].object_path@.before(r.object_paths@[j].object_path@)),
{
    let n = t.schema_paths.entries@.len() as int;
    let list = report::path_list(t, n);
    let rows = report::path_order(t);
    order::lemma_sorted_set(list);
    assert forall|i: int| 0 <= i < r.object_paths@.len() implies t.schema_paths.map().contains_key(
        (#[trigger] r.object_paths@[i]).object_path@,
    ) && t.schema_paths.map()[r.object_paths@[i].object_path@]@ == r.object_paths@[i].schema_path@
        && t.definitions.map().contains_key(r.object_paths@[i].schema_path@) by {
        assert(rows.contains(rows[i]));
        lemma_paths(t, n, rows[i]);
        let j = choose|j: int|
            0 <= j < n && (#[trigger] t.schema_paths.entries@[j]).0@ == rows[i].1
                && t.schema_paths.entries@[j].1@ == rows[i].0.1;
        t.schema_paths.lemma_entry(j);
    }
    assert forall|o: Seq<char>| #[trigger]
        t.schema_paths.map().contains_key(o) && t.definitions.map().contains_key(
            t.schema_paths.map()[o]@,
        ) implies exists|i: int|
        0 <= i < r.object_paths@.len() && (#[trigger] r.object_paths@[i]).object_path@ == o by {
        let p = t.schema_paths.map()[o]@;
        let j = t.schema_paths.keys().index_of(o);
        assert(t.schema_paths.keys().contains(o));
        assert(t.schema_paths.entries@[j].0@ == o && t.schema_paths.entries@[j].1@ == p);
        let k = ((report::rank(objects_in(t, p)), p), o);
        lemma_paths(t, n, k);
        assert(rows.contains(k));
        let i = choose|i: int| 0 <= i < rows.len() && rows[i] == k;
        assert(r.object_paths@[i].object_path@ == o);
    }
    assert forall|i: int, j: int| 0 <= i < j < r.object_paths@.len() implies ahead(
        t,
        (#[trigger] r.object_paths@[i]).schema_path@,
        (#[trigger] r.object_paths@[j]).schema_path@,
    ) || (r.object_paths@[i].schema_path@ == r.object_paths@[j].schema_path@
        && r.object_paths@[i].object_path@.before(r.object_paths@[j].object_path@)) by {
        assert(rows.contains(rows[i]) && rows.contains(rows[j]));
        lemma_paths(t, n, rows[i]);
        lemma_paths(t, n, rows[j]);
        assert(rows[i].before(rows[j]));
        lemma_ahead(t, rows[i].0.1, rows[j].0.1);
        assert(t.count_of(rows[i].0.1) == objects_in(t, rows[i].0.1));
        assert(t.count_of(rows[j].0.1) == objects_in(t, rows[j].0.1));
    }
}

proof fn lemma_refs(t: IndexTables, n: int, k: (((nat, Seq<char>), Seq<char>), Seq<char>))
    requires
        t.wf(),
        0 <= n <= t.array_index_refs.entries@.len(),
    ensures
        report::ref_list(t, n).contains(k) <==> k.0.0.0 == report::rank(objects_in(t, k.0.0.1))
            && is_used(t, k.0.0.1) && exists|j: int|
            0 <= j < n && (#[trigger] t.array_index_refs.entries@[j]).0.0@ == k.0.1
                && t.array_index_refs.entries@[j].0.1@ == k.1
                && t.array_index_refs.entries@[j].1@ == k.0.0.1,
    decreases n,
{
    if n > 0 {
        let row = t.array_index_refs.entries@[n - 1];
        let p = row.1@;
        let less = report::ref_list(t, n - 1);
        lemma_refs(t, n - 1, k);
        assert(t.listed(p) == is_used(t, p));
        assert(t.count_of(p) == objects_in(t, p));
        let new = (((report::rank(t.count_of(p)), p), row.0.0@), row.0.1@);
        let more = less.push(new);
        assert(more[less.len() as int] == new);
        if less.contains(k) {
            let i = choose|i: int| 0 <= i < less.len() && less[i] == k;
            assert(more[i] == k);
        }
        if more.contains(k) && k != new {
            let i = choose|i: int| 0 <= i < more.len() && more[i] == k;
            assert(less[i] == k);
        }
    }
}

/// A report has one row for each item position whose schema is in use, with its array and its
/// schema. They stand in the order of the schemas, then by array and by position.
pub proof fn law_report_lists_the_item_positions(t: IndexTables, r: ReportData)
    requires
        t.wf(),
        report::reports(t, r),
    ensures
        forall|i: int|
            0 <= i < r.array_index_refs@.len() ==> {
                let row = #[trigger] r.array_index_refs@[i];
                let k = (row.array_path@, row.array_index_path@);
                &&& t.array_index_refs.map().contains_key(k)
                &&& t.array_index_refs.map()[k]@ == row.schema_path@
                &&& is_used(t, row.schema_path@)
            },
        forall|k: (Seq<char>, Seq<char>)| #[trigger]
            t.array_index_refs.map().contains_key(k) && is_used(t, t.array_index_refs.map()[k]@)
                ==> exists|i: int|
                0 <= i < r.array_index_refs@.len() && (#[trigger] r.array_index_refs@[i]).array_path@
                    == k.0 && r.array_index_refs@[i].array_index_path@ == k.1,
        forall|i: int, j: int|
            0 <= i < j < r.array_index_refs@.len() ==> {
                let a = #[trigger] r.array_index_refs@[i];
                let b = #[trigger] r.array_index_refs@[j];
                ahead(t, a.schema_path@, b.schema_path@) || (a.schema_path@ == b.schema_path@ && (
                a.array_path@.before(b.array_path@) || (a.array_path@ == b.array_path@
                    && a.array_index_path@.before(b.array_index_path@))))
            },
{
    let n = t.array_index_refs.entries@.len() as int;
    let list = report::ref_list(t, n);
    let rows = report::ref_order(t);
    order::lemma_sorted_set(list);
    assert forall|i: int| 0 <= i < r.array_index_refs@.len() implies {
        let row = #[trigger] r.array_index_refs@[i];
        let k = (row.array_path@, row.array_index_path@);
        &&& t.array_index_refs.map().contains_key(k)
        &&& t.array_index_refs.map()[k]@ == row.schema_path@
        &&& is_used(t, row.schema_path@)
    } by {
        assert(rows.contains(rows[i]));
        lemma_refs(t, n, rows[i]);
        let j = choose|j: int|
            0 <= j < n && (#[trigger] t.array_index_refs.entries@[j]).0.0@ == rows[i].0.1
                && t.array_index_refs.entries@[j].0.1@ == rows[i].1
                && t.array_index_refs.entries@[j].1@ == rows[i].0.0.1;
        t.array_index_refs.lemma_entry(j);
    }
    assert forall|k: (Seq<char>, Seq<char>)| #[trigger]
        t.array_index_refs.map().contains_key(k) && is_used(
            t,
            t.array_index_refs.map()[k]@,
        ) implies exists|i: int|
        0 <= i < r.array_index_refs@.len() && (#[trigger] r.array_index_refs@[i]).array_path@ == k.0
            && r.array_index_refs@[i].array_index_path@ == k.1 by {
        let p = t.array_index_refs.map()[k]@;
        let j = t.array_index_refs.keys().index_of(k);
        assert(t.array_index_refs.keys().contains(k));
        let row = t.array_index_refs.entries@[j];
        assert(row.0.model() == (row.0.0@, row.0.1@));
        assert(row.0.0@ == k.0 && row.0.1@ == k.1 && row.1@ == p);
        let x = (((report::rank(objects_in(t, p)), p), k.0), k.1);
        lemma_refs(t, n, x);
        assert(rows.contains(x));
        let i = choose|i: int| 0 <= i < rows.len() && rows[i] == x;
        assert(r.array_index_refs@[i].array_path@ == k.0);
    }
    assert forall|i: int, j: int| 0 <= i < j < r.array_index_refs@.len() implies {
        let a = #[trigger] r.array_index_refs@[i];
        let b = #[trigger] r.array_index_refs@[j];
        ahead(t, a.schema_path@, b.schema_path@) || (a.schema_path@ == b.schema_path@ && (
        a.array_path@.before(b.array_path@) || (a.array_path@ == b.array_path@
            && a.array_index_path@.before(b.array_index_path@))))
    } by {
        assert(rows.contains(rows[i]) && rows.contains(rows[j]));
        lemma_refs(t, n, rows[i]);
        lemma_refs(t, n, rows[j]);
        assert(rows[i].before(rows[j]));
        lemma_ahead(t, rows[i].0.0.1, rows[j].0.0.1);
        assert(t.count_of(rows[i].0.0.1) == objects_in(t, rows[i].0.0.1));
        assert(t.count_of(rows[j].0.0.1) == objects_in(t, rows[j].0.0.1));
    }
}

proof fn lemma_fields(t: IndexTables, n: int, k: (((nat, Seq<char>), nat), Seq<char>))
    requires
        t.wf(),
        0 <= n <= t.field_counts.entries@.len(),
    ensures
        report::field_list(t, n).contains(k) <==> k.0.0.0 == report::rank(objects_in(t, k.0.0.1))
            && is_used(t, k.0.0.1) && exists|j: int|
            0 <= j < n && (#[trigger] t.field_counts.entries@[j]).0.0@ == k.0.0.1
                && t.field_counts.entries@[j].0.1@ == k.1 && report::rank(
                t.field_counts.entries@[j].1.1 as int,
            ) == k.0.1,
    decreases n,
{
    if n > 0 {
        let row = t.field_counts.entries@[n - 1];
        let p = row.0.0@;
        let less = report::field_list(t, n - 1);
        lemma_fields(t, n - 1, k);
        assert(t.listed(p) == is_used(t, p));
        assert(t.count_of(p) == objects_in(t, p));
        let new = (((report::rank(t.count_of(p)), p), report::rank(row.1.1 as int)), row.0.1@);
        let more = less.push(new);
        assert(more[less.len() as int] == new);
        if less.contains(k) {
            let i = choose|i: int| 0 <= i < less.len() && less[i] == k;
            assert(more[i] == k);
        }
        if more.contains(k) && k != new {
            let i = choose|i: int| 0 <= i < more.len() && more[i] == k;
            assert(less[i] == k);
        }
    }
}

/// A report has one row for each field of a schema in use, with its label and its count. They
/// stand in the order of the schemas, the most frequent first for each, those that are as
/// frequent by name.
pub proof fn law_report_lists_the_fields(t: IndexTables, r: ReportData)
    requires
        t.wf(),
        report::reports(t, r),
    ensures
        forall|i: int|
            0 <= i < r.fields@.len() ==> {
                let row = #[trigger] r.fields@[i];
                let k = (row.schema_path@, row.field_name@);
                &&& t.field_counts.map().contains_key(k)
                &&& t.field_counts.map()[k].0@ == row.field_type@
                &&& t.field_counts.map()[k].1 == row.field_count
                &&& is_used(t, row.schema_path@)
            },
        forall|k: (Seq<char>, Seq<char>)| #[trigger]
            t.field_counts.map().contains_key(k) && is_used(t, k.0) ==> exists|i: int|
                0 <= i < r.fields@.len() && (#[trigger] r.fields@[i]).schema_path@ == k.0
                    && r.fields@[i].field_name@ == k.1,
        forall|i: int, j: int|
            0 <= i < j < r.fields@.len() ==> {
                let a = #[trigger] r.fields@[i];
                let b = #[trigger] r.fields@[j];
                ahead(t, a.schema_path@, b.schema_path@) || (a.schema_path@ == b.schema_path@ && (
                a.field_count > b.field_count || (a.field_count == b.field_count
                    && a.field_name@.before(b.field_name@))))
            },
{
    let n = t.field_counts.entries@.len() as int;
    let list = report::field_list(t, n);
    let rows = report::field_order(t);
    order::lemma_sorted_set(list);
    assert forall|i: int| 0 <= i < r.fields@.len() implies {
        let row = #[trigger] r.fields@[i];
        let k = (row.schema_path@, row.field_name@);
        &&& t.field_counts.map().contains_key(k)
        &&& t.field_counts.map()[k].0@ == row.field_type@
        &&& t.field_counts.map()[k].1 == row.field_count
        &&& is_used(t, row.schema_path@)
        &&& rows[i].0.1 == report::rank(row.field_count as int)
    } by {
        assert(rows.contains(rows[i]));
        lemma_fields(t, n, rows[i]);
        let j = choose|j: int|
            0 <= j < n && (#[trigger] t.field_counts.entries@[j]).0.0@ == rows[i].0.0.1
                && t.field_counts.entries@[j].0.1@ == rows[i].1 && report::rank(
                t.field_counts.entries@[j].1.1 as int,
            ) == rows[i].0.1;
        t.field_counts.lemma_entry(j);
        let row = t.field_counts.entries@[j];
        assert(row.0.model() == (row.0.0@, row.0.1@));
    }
    assert forall|k: (Seq<char>, Seq<char>)| #[trigger]
        t.field_counts.map().contains_key(k) && is_used(t, k.0) implies exists|i: int|
        0 <= i < r.fields@.len() && (#[trigger] r.fields@[i]).schema_path@ == k.0
            && r.fields@[i].field_name@ == k.1 by {
        let j = t.field_counts.keys().index_of(k);
        assert(t.field_counts.keys().contains(k));
        let row = t.field_counts.entries@[j];
        assert(row.0.model() == (row.0.0@, row.0.1@));
        assert(row.0.0@ == k.0 && row.0.1@ == k.1);
        let x = (
            ((report::rank(objects_in(t, k.0)), k.0), report::rank(row.1.1 as int)),
            k.1,
        );
        lemma_fields(t, n, x);
        assert(rows.contains(x));
        let i = choose|i: int| 0 <= i < rows.len() && rows[i] == x;
        assert(r.fields@[i].schema_path@ == k.0);
    }
    assert forall|i: int, j: int| 0 <= i < j < r.fields@.len() implies {
        let a = #[trigger] r.fields@[i];
        let b = #[trigger] r.fields@[j];
        ahead(t, a.schema_path@, b.schema_path@) || (a.schema_path@ == b.schema_path@ && (
        a.field_count > b.field_count || (a.field_count == b.field_count
            && a.field_name@.before(b.field_name@))))
    } by {
        assert(rows.contains(rows[i]) && rows.contains(rows[j]));
        lemma_fields(t, n, rows[i]);
        lemma_fields(t, n, rows[j]);
        assert(rows[i].before(rows[j]));
        lemma_ahead(t, rows[i].0.0.1, rows[j].0.0.1);
        lemma_rank(r.fields@[i].field_count as int, r.fields@[j].field_count as int);
        assert(t.count_of(rows[i].0.0.1) == objects_in(t, rows[i].0.0.1));
        assert(t.count_of(rows[j].0.0.1) == objects_in(t, rows[j].0.0.1));
    }
}

/// Somewhere in a text, behind a line feed, stands a line.
pub open spec fn has_line(t: Seq<char>, line: Seq<char>) -> bool {
    exists|a: Seq<char>, b: Seq<char>| t == #[trigger] (a + seq!['\n'] + line + seq!['\n'] + b)
}

proof fn lemma_section(head: Seq<char>, rows: Seq<Seq<Seq<char>>>, row: Seq<Seq<char>>)
    ensures
        rows.len() == 0 ==> report::section(head, rows) == head + "\n"@,
        report::section(head, rows.push(row)) == report::section(head, rows).drop_last()
            + report::row_text(row) + "\n"@,
{
    reveal_strlit("\n");
    assert(rows.push(row).drop_last() =~= rows);
    if rows.len() == 0 {
        assert(report::section(head, rows) =~= head + "\n"@);
    }
    assert(report::section(head, rows).drop_last() =~= head + report::rows_text(rows));
    assert(report::section(head, rows.push(row)) =~= head + report::rows_text(rows)
        + report::row_text(row) + "\n"@);
}

proof fn lemma_rows_line(head: Seq<char>, rows: Seq<Seq<Seq<char>>>, i: int) -> (r: (
    Seq<char>,
    Seq<char>,
))
    requires
        0 <= i < rows.len(),
        head.len() > 0,
        head.last() == '\n',
    ensures
        head + report::rows_text(rows) == r.0 + seq!['\n'] + text::joined(rows[i], "\t"@)
            + seq!['\n'] + r.1,
        head + report::rows_text(rows.take(i)) == r.0 + seq!['\n'],
    decreases rows.len(),
{
    reveal_strlit("\n");
    let n = rows.len() - 1;
    let less = rows.drop_last();
    let front = head + report::rows_text(less);
    assert(head + report::rows_text(rows) =~= front + report::row_text(rows[n]));
    if i == n {
        lemma_rows_end(less);
        assert(rows.take(i) =~= less);
        let a = front.drop_last();
        assert(front.last() == '\n');
        assert(front =~= a + seq!['\n']);
        assert(head + report::rows_text(rows) =~= a + seq!['\n'] + text::joined(rows[i], "\t"@)
            + seq!['\n'] + Seq::empty());
        (a, Seq::empty())
    } else {
        let (a, b) = lemma_rows_line(head, less, i);
        assert(less.take(i) =~= rows.take(i));
        assert(less[i] == rows[i]);
        let c = b + report::row_text(rows[n]);
        assert(head + report::rows_text(rows) =~= a + seq!['\n'] + text::joined(rows[i], "\t"@)
            + seq!['\n'] + c);
        (a, c)
    }
}

proof fn lemma_rows_end(rows: Seq<Seq<Seq<char>>>)
    ensures
        rows.len() > 0 ==> report::rows_text(rows).len() > 0 && report::rows_text(rows).last()
            == '\n',
        rows.len() == 0 ==> report::rows_text(rows).len() == 0,
{
    reveal_strlit("\n");
}

proof fn lemma_section_line(head: Seq<char>, rows: Seq<Seq<Seq<char>>>, i: int)
    requires
        0 <= i < rows.len(),
        head.len() > 0,
        head.last() == '\n',
    ensures
        has_line(report::section(head, rows), text::joined(rows[i], "\t"@)),
{
    let (a, b) = lemma_rows_line(head, rows, i);
    let c = b + "\n"@;
    assert(report::section(head, rows) =~= a + seq!['\n'] + text::joined(rows[i], "\t"@)
        + seq!['\n'] + c);
}

proof fn lemma_two(a: Seq<char>, b: Seq<char>)
    ensures
        text::joined(seq![a, b], "\t"@) == a + "\t"@ + b,
{
    assert(seq![a, b].drop_last() =~= seq![a]);
    assert(text::joined(seq![a], "\t"@) == a);
}

proof fn lemma_three(a: Seq<char>, b: Seq<char>, c: Seq<char>)
    ensures
        text::joined(seq![a, b, c], "\t"@) == a + "\t"@ + b + "\t"@ + c,
{
    lemma_two(a, b);
    assert(seq![a, b, c].drop_last() =~= seq![a, b]);
}

proof fn lemma_four(a: Seq<char>, b: Seq<char>, c: Seq<char>, d: Seq<char>)
    ensures
        text::joined(seq![a, b, c, d], "\t"@) == a + "\t"@ + b + "\t"@ + c + "\t"@ + d,
{
    lemma_three(a, b, c);
    assert(seq![a, b, c, d].drop_last() =~= seq![a, b, c]);
}

proof fn lemma_schema_cells(row: SchemaCount)
    ensures
        text::joined(report::schema_cells(row), "\t"@) == row.schema_path@ + "\t"@ + row.schema_kind@ + "\t"@ + text::signed_decimal(row.object_count as int),
        report::row_text(report::schema_cells(row)) == row.schema_path@ + "\t"@ + row.schema_kind@ + "\t"@ + text::signed_decimal(row.object_count as int) + "\n"@,
{
    lemma_three(
        row.schema_path@,
        row.schema_kind@,
        text::signed_decimal(row.object_count as int),
    );
}

proof fn lemma_path_cells(row: SchemaObjectPath)
    ensures
        text::joined(report::path_cells(row), "\t"@) == row.schema_path@ + "\t"@ + row.object_path@,
        report::row_text(report::path_cells(row)) == row.schema_path@ + "\t"@ + row.object_path@ + "\n"@,
{
    lemma_two(row.schema_path@, row.object_path@);
}

proof fn lemma_ref_cells(row: SchemaArrayIndexRef)
    ensures
        text::joined(report::ref_cells(row), "\t"@) == row.schema_path@ + "\t"@ + row.array_path@ + "\t"@ + row.array_index_path@,
        report::row_text(report::ref_cells(row)) == row.schema_path@ + "\t"@ + row.array_path@ + "\t"@ + row.array_index_path@ + "\n"@,
{
    lemma_three(row.schema_path@, row.array_path@, row.array_index_path@);
}

proof fn lemma_field_cells(row: FieldCount)
    ensures
        text::joined(report::field_cells(row), "\t"@) == row.schema_path@ + "\t"@ + row.field_name@ + "\t"@ + row.field_type@ + "\t"@ + text::signed_decimal(row.field_count as int),
        report::row_text(report::field_cells(row)) == row.schema_path@ + "\t"@ + row.field_name@ + "\t"@ + row.field_type@ + "\t"@ + text::signed_decimal(row.field_count as int) + "\n"@,
{
    lemma_four(
        row.schema_path@,
        row.field_name@,
        row.field_type@,
        text::signed_decimal(row.field_count as int),
    );
}

/// The section of the schemas has its name and its header, one line for each row, with its
/// path, its kind and its object count, and an empty line.
pub proof fn law_schemas_section(r: ReportData, more: ReportData, row: SchemaCount, i: int)
    requires
        more.schemas@ == r.schemas@.push(row),
    ensures
        r.schemas@.len() == 0 ==> report::schemas_section(r) == "[schemas]\nschema_path\tschema_kind\tobject_count\n"@ + "\n"@,
        report::schemas_section(more) == report::schemas_section(r).drop_last() + row.schema_path@ + "\t"@ + row.schema_kind@ + "\t"@ + text::signed_decimal(row.object_count as int) + "\n"@ + "\n"@,
        0 <= i < r.schemas@.len() ==> {
            let row = r.schemas@[i];
            has_line(report::schemas_section(r), row.schema_path@ + "\t"@ + row.schema_kind@ + "\t"@ + text::signed_decimal(row.object_count as int))
        },
{
    let a = Seq::new(r.schemas@.len(), |i: int| report::schema_cells(r.schemas@[i]));
    let b = Seq::new(more.schemas@.len(), |i: int| report::schema_cells(more.schemas@[i]));
    assert(b =~= a.push(report::schema_cells(row)));
    lemma_section("[schemas]\nschema_path\tschema_kind\tobject_count\n"@, a, report::schema_cells(row));
    lemma_schema_cells(row);
    assert(report::schemas_section(more) =~= report::schemas_section(r).drop_last() + row.schema_path@ + "\t"@ + row.schema_kind@ + "\t"@ + text::signed_decimal(row.object_count as int) + "\n"@ + "\n"@);
    if 0 <= i < r.schemas@.len() {
        reveal_strlit("[schemas]\nschema_path\tschema_kind\tobject_count\n");
        lemma_section_line("[schemas]\nschema_path\tschema_kind\tobject_count\n"@, a, i);
        lemma_schema_cells(r.schemas@[i]);
    }
}

/// The section of the object paths has its name and its header, one line for each row, with
/// its schema path and its object path, and an empty line.
pub proof fn law_object_paths_section(r: ReportData, more: ReportData, row: SchemaObjectPath, i: int)
    requires
        more.object_paths@ == r.object_paths@.push(row),
    ensures
        r.object_paths@.len() == 0 ==> report::object_paths_section(r) == "[schema_object_paths]\nschema_path\tobject_path\n"@ + "\n"@,
        report::object_paths_section(more) == report::object_paths_section(r).drop_last() + row.schema_path@ + "\t"@ + row.object_path@ + "\n"@ + "\n"@,
        0 <= i < r.object_paths@.len() ==> {
            let row = r.object_paths@[i];
            has_line(report::object_paths_section(r), row.schema_path@ + "\t"@ + row.object_path@)
        },
{
    let a = Seq::new(r.object_paths@.len(), |i: int| report::path_cells(r.object_paths@[i]));
    let b = Seq::new(more.object_paths@.len(), |i: int| report::path_cells(more.object_paths@[i]));
    assert(b =~= a.push(report::path_cells(row)));
    lemma_section("[schema_object_paths]\nschema_path\tobject_path\n"@, a, report::path_cells(row));
    lemma_path_cells(row);
    assert(report::object_paths_section(more) =~= report::object_paths_section(r).drop_last() + row.schema_path@ + "\t"@ + row.object_path@ + "\n"@ + "\n"@);
    if 0 <= i < r.object_paths@.len() {
        reveal_strlit("[schema_object_paths]\nschema_path\tobject_path\n");
        lemma_section_line("[schema_object_paths]\nschema_path\tobject_path\n"@, a, i);
        lemma_path_cells(r.object_paths@[i]);
    }
}

/// The section of the item positions has its name and its header, one line for each row, with
/// its schema path, its array path and its position, and an empty line.
pub proof fn law_array_index_refs_section(r: ReportData, more: ReportData, row: SchemaArrayIndexRef, i: int)
    requires
        more.array_index_refs@ == r.array_index_refs@.push(row),
    ensures
        r.array_index_refs@.len() == 0 ==> report::array_index_refs_section(r) == "[schema_array_index_refs]\nschema_path\tarray_path\tarray_index_path\n"@ + "\n"@,
        report::array_index_refs_section(more) == report::array_index_refs_section(r).drop_last() + row.schema_path@ + "\t"@ + row.array_path@ + "\t"@ + row.array_index_path@ + "\n"@ + "\n"@,
        0 <= i < r.array_index_refs@.len() ==> {
            let row = r.array_index_refs@[i];
            has_line(report::array_index_refs_section(r), row.schema_path@ + "\t"@ + row.array_path@ + "\t"@ + row.array_index_path@)
        },
{
    let a = Seq::new(r.array_index_refs@.len(), |i: int| report::ref_cells(r.array_index_refs@[i]));
    let b = Seq::new(more.array_index_refs@.len(), |i: int| report::ref_cells(more.array_index_refs@[i]));
    assert(b =~= a.push(report::ref_cells(row)));
    lemma_section("[schema_array_index_refs]\nschema_path\tarray_path\tarray_index_path\n"@, a, report::ref_cells(row));
    lemma_ref_cells(row);
    assert(report::array_index_refs_section(more) =~= report::array_index_refs_section(r).drop_last() + row.schema_path@ + "\t"@ + row.array_path@ + "\t"@ + row.array_index_path@ + "\n"@ + "\n"@);
    if 0 <= i < r.array_index_refs@.len() {
        reveal_strlit("[schema_array_index_refs]\nschema_path\tarray_path\tarray_index_path\n");
        lemma_section_line("[schema_array_index_refs]\nschema_path\tarray_path\tarray_index_path\n"@, a, i);
        lemma_ref_cells(r.array_index_refs@[i]);
    }
}

/// The section of the fields has its name and its header, one line for each row, with its
/// schema path, its name, its label and its count, and an empty line.
pub proof fn law_fields_section(r: ReportData, more: ReportData, row: FieldCount, i: int)
    requires
        more.fields@ == r.fields@.push(row),
    ensures
        r.fields@.len() == 0 ==> report::fields_section(r) == "[fields]\nschema_path\tfield_name\tfield_type\tfield_count\n"@ + "\n"@,
        report::fields_section(more) == report::fields_section(r).drop_last() + row.schema_path@ + "\t"@ + row.field_name@ + "\t"@ + row.field_type@ + "\t"@ + text::signed_decimal(row.field_count as int) + "\n"@ + "\n"@,
        0 <= i < r.fields@.len() ==> {
            let row = r.fields@[i];
            has_line(report::fields_section(r), row.schema_path@ + "\t"@ + row.field_name@ + "\t"@ + row.field_type@ + "\t"@ + text::signed_decimal(row.field_count as int))
        },
{
    let a = Seq::new(r.fields@.len(), |i: int| report::field_cells(r.fields@[i]));
    let b = Seq::new(more.fields@.len(), |i: int| report::field_cells(more.fields@[i]));
    assert(b =~= a.push(report::field_cells(row)));
    lemma_section("[fields]\nschema_path\tfield_name\tfield_type\tfield_count\n"@, a, report::field_cells(row));
    lemma_field_cells(row);
    assert(report::fields_section(more) =~= report::fields_section(r).drop_last() + row.schema_path@ + "\t"@ + row.field_name@ + "\t"@ + row.field_type@ + "\t"@ + text::signed_decimal(row.field_count as int) + "\n"@ + "\n"@);
    if 0 <= i < r.fields@.len() {
        reveal_strlit("[fields]\nschema_path\tfield_name\tfield_type\tfield_count\n");
        lemma_section_line("[fields]\nschema_path\tfield_name\tfield_type\tfield_count\n"@, a, i);
        lemma_field_cells(r.fields@[i]);
    }
}

/// The section of the aliases has a line for each object path whose schema has another path,
/// and none for the others; it is left out if there are no aliases.
pub proof fn law_aliases_section(r: ReportData, more: ReportData, row: SchemaObjectPath)
    requires
        more.object_paths@ == r.object_paths@.push(row),
    ensures
        r.object_paths@.len() == 0 ==> report::aliases_section(r).len() == 0,
        row.schema_path@ == row.object_path@ ==> report::aliases_section(more)
            == report::aliases_section(r),
        row.schema_path@ != row.object_path@ ==> report::aliases_section(more) == (
        if report::aliases_section(r).len() == 0 {
            "[schema_aliases]\nschema_path\tobject_path\n"@
        } else {
            report::aliases_section(r).drop_last()
        }) + row.schema_path@ + "\t"@ + row.object_path@ + "\n"@ + "\n"@,
{
    let a = report::alias_rows(r.object_paths@);
    assert(more.object_paths@.drop_last() =~= r.object_paths@);
    assert(more.object_paths@.last() == row);
    let head = "[schema_aliases]\nschema_path\tobject_path\n"@;
    reveal_strlit("[schema_aliases]\nschema_path\tobject_path\n");
    lemma_path_cells(row);
    lemma_section(head, a, report::path_cells(row));
    if row.schema_path@ != row.object_path@ {
        let old = report::aliases_section(r);
        if a.len() == 0 {
            assert(report::section(head, a).drop_last() =~= head) by {
                reveal_strlit("\n");
            }
            assert(report::aliases_section(more) =~= head + row.schema_path@ + "\t"@
                + row.object_path@ + "\n"@ + "\n"@);
        } else {
            assert(report::aliases_section(more) =~= old.drop_last() + row.schema_path@ + "\t"@
                + row.object_path@ + "\n"@ + "\n"@);
        }
    }
}

/// The report on the screen has the schemas, the fields and the aliases; that in a file has the
/// schemas, all object paths, all item positions and the fields. Both start with one title.
pub proof fn law_report_sections(r: ReportData)
    ensures
        report::report_body(r, ReportDetail::CompactStdout) == "# dump-json-refs report\n\n"@
            + report::schemas_section(r) + report::fields_section(r) + report::aliases_section(r),
        report::report_body(r, ReportDetail::FullFile) == "# dump-json-refs report\n\n"@
            + report::schemas_section(r) + report::object_paths_section(r)
            + report::array_index_refs_section(r) + report::fields_section(r),
{
    assert(report::report_body(r, ReportDetail::CompactStdout) =~= "# dump-json-refs report\n\n"@
        + report::schemas_section(r) + report::fields_section(r) + report::aliases_section(r));
    assert(report::report_body(r, ReportDetail::FullFile) =~= "# dump-json-refs report\n\n"@
        + report::schemas_section(r) + report::object_paths_section(r)
        + report::array_index_refs_section(r) + report::fields_section(r));
}

/// Every object path has its line in the full report, and so have every schema, every item
/// position and every field.
pub proof fn law_full_report_has_every_row(r: ReportData, i: int)
    ensures
        0 <= i < r.schemas@.len() ==> {
            let row = r.schemas@[i];
            has_line(
                report::report_body(r, ReportDetail::FullFile),
                row.schema_path@ + "\t"@ + row.schema_kind@ + "\t"@ + text::signed_decimal(
                    row.object_count as int,
                ),
            )
        },
        0 <= i < r.object_paths@.len() ==> {
            let row = r.object_paths@[i];
            has_line(
                report::report_body(r, ReportDetail::FullFile),
                row.schema_path@ + "\t"@ + row.object_path@,
            )
        },
        0 <= i < r.array_index_refs@.len() ==> {
            let row = r.array_index_refs@[i];
            has_line(
                report::report_body(r, ReportDetail::FullFile),
                row.schema_path@ + "\t"@ + row.array_path@ + "\t"@ + row.array_index_path@,
            )
        },
        0 <= i < r.fields@.len() ==> {
            let row = r.fields@[i];
            has_line(
                report::report_body(r, ReportDetail::FullFile),
                row.schema_path@ + "\t"@ + row.field_name@ + "\t"@ + row.field_type@ + "\t"@
                    + text::signed_decimal(row.field_count as int),
            )
        },
{
    let title = "# dump-json-refs report\n\n"@;
    let a = report::schemas_section(r);
    let b = report::object_paths_section(r);
    let c = report::array_index_refs_section(r);
    let d = report::fields_section(r);
    let whole = report::report_body(r, ReportDetail::FullFile);
    if 0 <= i < r.schemas@.len() {
        let row = r.schemas@[i];
        lemma_schema_cells(row);
        reveal_strlit("[schemas]\nschema_path\tschema_kind\tobject_count\n");
        let rows = Seq::new(r.schemas@.len(), |i: int| report::schema_cells(r.schemas@[i]));
        lemma_section_line("[schemas]\nschema_path\tschema_kind\tobject_count\n"@, rows, i);
        lemma_line_within(title, a, b + c + d, text::joined(rows[i], "\t"@));
        assert(whole =~= title + a + (b + c + d));
    }
    if 0 <= i < r.object_paths@.len() {
        let row = r.object_paths@[i];
        lemma_path_cells(row);
        reveal_strlit("[schema_object_paths]\nschema_path\tobject_path\n");
        let rows = Seq::new(r.object_paths@.len(), |i: int| report::path_cells(r.object_paths@[i]));
        lemma_section_line("[schema_object_paths]\nschema_path\tobject_path\n"@, rows, i);
        lemma_line_within(title + a, b, c + d, text::joined(rows[i], "\t"@));
        assert(whole =~= (title + a) + b + (c + d));
    }
    if 0 <= i < r.array_index_refs@.len() {
        let row = r.array_index_refs@[i];
        lemma_ref_cells(row);
        reveal_strlit("[schema_array_index_refs]\nschema_path\tarray_path\tarray_index_path\n");
        let rows = Seq::new(
            r.array_index_refs@.len(),
            |i: int| report::ref_cells(r.array_index_refs@[i]),
        );
        lemma_section_line(
            "[schema_array_index_refs]\nschema_path\tarray_path\tarray_index_path\n"@,
            rows,
            i,
        );
        lemma_line_within(title + a + b, c, d, text::joined(rows[i], "\t"@));
        assert(whole =~= (title + a + b) + c + d);
    }
    if 0 <= i < r.fields@.len() {
        let row = r.fields@[i];
        lemma_field_cells(row);
        reveal_strlit("[fields]\nschema_path\tfield_name\tfield_type\tfield_count\n");
        let rows = Seq::new(r.fields@.len(), |i: int| report::field_cells(r.fields@[i]));
        lemma_section_line(
            "[fields]\nschema_path\tfield_name\tfield_type\tfield_count\n"@,
            rows,
            i,
        );
        lemma_line_within(title + a + b + c, d, Seq::empty(), text::joined(rows[i], "\t"@));
        assert(whole =~= (title + a + b + c) + d + Seq::empty());
    }
}

pub proof fn lemma_line_within(front: Seq<char>, t: Seq<char>, back: Seq<char>, line: Seq<char>)
    requires
        has_line(t, line),
    ensures
        has_line(front + t + back, line),
{
    let (a, b) = choose|a: Seq<char>, b: Seq<char>|
        t == #[trigger] (a + seq!['\n'] + line + seq!['\n'] + b);
    let c = front + a;
    let d = b + back;
    assert(front + t + back =~= c + seq!['\n'] + line + seq!['\n'] + d);
}

/// A line with a name and a value.
pub open spec fn named_line(name: Seq<char>, value: Seq<char>) -> Seq<char> {
    name + seq!['\t'] + value + seq!['\n']
}

/// The summary gives five numbers by their names.
pub proof fn law_summary_numbers(counts: SummaryCounts)
    ensures
        report::rows_text(report::summary_rows(counts)) == named_line(
            "schema_count"@,
            text::decimal(counts.schemas as nat),
        ) + named_line("field_count"@, text::decimal(counts.fields as nat)) + named_line(
            "object_path_mapping_count"@,
            text::decimal(counts.object_paths as nat),
        ) + named_line("schema_alias_count"@, text::decimal(counts.aliases as nat)) + named_line(
            "array_index_ref_count"@,
            text::decimal(counts.array_index_refs as nat),
        ),
{
    let a = report::named("schema_count"@, text::decimal(counts.schemas as nat));
    let b = report::named("field_count"@, text::decimal(counts.fields as nat));
    let c = report::named("object_path_mapping_count"@, text::decimal(counts.object_paths as nat));
    let d = report::named("schema_alias_count"@, text::decimal(counts.aliases as nat));
    let e = report::named(
        "array_index_ref_count"@,
        text::decimal(counts.array_index_refs as nat),
    );
    let rows = report::summary_rows(counts);
    lemma_named("schema_count"@, text::decimal(counts.schemas as nat));
    lemma_named("field_count"@, text::decimal(counts.fields as nat));
    lemma_named("object_path_mapping_count"@, text::decimal(counts.object_paths as nat));
    lemma_named("schema_alias_count"@, text::decimal(counts.aliases as nat));
    lemma_named("array_index_ref_count"@, text::decimal(counts.array_index_refs as nat));
    let none = Seq::<Seq<Seq<char>>>::empty();
    assert(rows =~= none.push(a).push(b).push(c).push(d).push(e));
    lemma_rows_push(none, a);
    lemma_rows_push(none.push(a), b);
    lemma_rows_push(none.push(a).push(b), c);
    lemma_rows_push(none.push(a).push(b).push(c), d);
    lemma_rows_push(none.push(a).push(b).push(c).push(d), e);
    assert(Seq::<char>::empty() + report::row_text(a) =~= report::row_text(a));
}

/// The summary of a report: its numbers, then where the data came from, then where the report
/// went, if it went to a file.
pub proof fn law_summary(counts: SummaryCounts, summary: ReportSummary, output: Seq<char>)
    ensures
        ({
            let numbers = "[summary]\n"@ + report::rows_text(report::summary_rows(counts));
            let plain = report::summary_text(counts, summary, None);
            &&& summary matches ReportSummary::Generated { execution_time_ms, input_source }
                ==> plain == numbers + named_line(
                "execution_time_ms"@,
                text::decimal(execution_time_ms as nat),
            ) + named_line("input"@, input_source@)
            &&& summary matches ReportSummary::FromSqlite { sqlite_path } ==> plain == numbers
                + named_line("sqlite_path"@, sqlite_path@)
            &&& report::summary_text(counts, summary, Some(output)) == plain + named_line(
                "report"@,
                output,
            )
        }),
{
    let head = "[summary]\n"@;
    let rows = report::summary_rows(counts);
    let all = rows + report::source_rows(summary);
    let numbers = head + report::rows_text(rows);
    assert(all + report::output_rows(None) =~= all);
    let plain = report::summary_text(counts, summary, None);
    assert(plain == head + report::rows_text(all));
    match summary {
        ReportSummary::Generated { execution_time_ms, input_source } => {
            let x = report::named("execution_time_ms"@, text::decimal(execution_time_ms as nat));
            let y = report::named("input"@, input_source@);
            lemma_named("execution_time_ms"@, text::decimal(execution_time_ms as nat));
            lemma_named("input"@, input_source@);
            assert(all =~= rows.push(x).push(y));
            lemma_rows_push(rows, x);
            lemma_rows_push(rows.push(x), y);
            assert(plain =~= numbers + report::row_text(x) + report::row_text(y));
        },
        ReportSummary::FromSqlite { sqlite_path } => {
            let x = report::named("sqlite_path"@, sqlite_path@);
            lemma_named("sqlite_path"@, sqlite_path@);
            assert(all =~= rows.push(x));
            lemma_rows_push(rows, x);
            assert(plain =~= numbers + report::row_text(x));
        },
    }
    let z = report::named("report"@, output);
    lemma_named("report"@, output);
    assert(all + report::output_rows(Some(output)) =~= all.push(z));
    lemma_rows_push(all, z);
    assert(report::summary_text(counts, summary, Some(output)) =~= plain + report::row_text(z));
}

proof fn lemma_rows_push(rows: Seq<Seq<Seq<char>>>, row: Seq<Seq<char>>)
    ensures
        report::rows_text(rows.push(row)) == report::rows_text(rows) + report::row_text(row),
        rows.len() == 0 ==> report::rows_text(rows) == Seq::<char>::empty(),
{
    assert(rows.push(row).drop_last() =~= rows);
}

proof fn lemma_named(name: Seq<char>, value: Seq<char>)
    ensures
        report::row_text(report::named(name, value)) == named_line(name, value),
{
    reveal_strlit("\t");
    reveal_strlit("\n");
    lemma_two(name, value);
    assert(report::row_text(report::named(name, value)) =~= named_line(name, value));
}

/// The numbers of a summary are those of the rows of the report; aliases are the object paths
/// whose schemas have other paths.
pub proof fn law_report_counts(r: ReportData, counts: SummaryCounts)
    requires
        report::counts_of_report(r, counts),
    ensures
        counts.schemas == r.schemas@.len(),
        counts.fields == r.fields@.len(),
        counts.object_paths == r.object_paths@.len(),
        counts.array_index_refs == r.array_index_refs@.len(),
        counts.aliases == r.object_paths@.filter(
            |row: SchemaObjectPath| row.schema_path@ != row.object_path@,
        ).len(),
{
    lemma_alias_rows(r.object_paths@);
}

proof fn lemma_alias_rows(paths: Seq<SchemaObjectPath>)
    ensures
        report::alias_rows(paths).len() == paths.filter(
            |row: SchemaObjectPath| row.schema_path@ != row.object_path@,
        ).len(),
    decreases paths.len(),
{
    reveal(Seq::filter);
    if paths.len() > 0 {
        lemma_alias_rows(paths.drop_last());
    }
}

/// A summary that is made from the tables gives the number of all their rows; aliases are the
/// object paths whose schemas have other paths. Of the schemas it counts those that the report
/// lists.
pub proof fn law_table_counts(t: IndexTables, r: ReportData, counts: SummaryCounts)
    requires
        report::counts_of_tables(t, counts),
        report::reports(t, r),
    ensures
        counts.schemas == r.schemas@.len(),
        counts.fields == t.field_counts.entries@.len(),
        counts.object_paths == t.schema_paths.entries@.len(),
        counts.array_index_refs == t.array_index_refs.entries@.len(),
        counts.aliases == t.schema_paths.entries@.filter(
            |row: (String, String)| row.0@ != row.1@,
        ).len(),
{
    let rows = t.schema_paths.entries@;
    lemma_alias_count(t, rows.len() as int);
    assert(rows.take(rows.len() as int) =~= rows);
}

proof fn lemma_alias_count(t: IndexTables, n: int)
    requires
        0 <= n <= t.schema_paths.entries@.len(),
    ensures
        report::alias_count(t, n) == t.schema_paths.entries@.take(n).filter(
            |row: (String, String)| row.0@ != row.1@,
        ).len(),
    decreases n,
{
    reveal(Seq::filter);
    if n > 0 {
        lemma_alias_count(t, n - 1);
        assert(t.schema_paths.entries@.take(n).drop_last() =~= t.schema_paths.entries@.take(n - 1));
    }
}

} // verus!
