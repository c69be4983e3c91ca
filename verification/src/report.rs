//! The report on an index: its rows in reading order, and their text.

use crate::order;
use crate::ordmap::{Key, OrdMap};
use crate::text;
use crate::text::{decimal_text, join_texts, same_text, signed_decimal_text, sorted_vec};
use vstd::prelude::*;

verus! {

/// A number as a key that sorts from large to small.
#[derive(Clone, Copy, PartialEq, Eq, Structural, Debug)]
pub struct Descending {
    pub value: i64,
}

/// How far a number is from the largest `i64`.
pub open spec fn rank(value: int) -> nat {
    (i64::MAX - value) as nat
}

impl Key for Descending {
    type Model = nat;

    open spec fn model(&self) -> nat {
        rank(self.value as int)
    }

    fn precedes(&self, other: &Self) -> (r: bool) {
        assert(order::Ordered::before(self.model(), other.model()) == (self.model()
            < other.model()));
        self.value > other.value
    }
}

#[derive(Debug)]
pub struct SchemaCount {
    pub schema_path: String,
    pub schema_kind: String,
    pub object_count: i64,
}

#[derive(Debug)]
pub struct SchemaObjectPath {
    pub schema_path: String,
    pub object_path: String,
}

#[derive(Debug)]
pub struct SchemaArrayIndexRef {
    pub schema_path: String,
    pub array_path: String,
    pub array_index_path: String,
}

#[derive(Debug)]
pub struct FieldCount {
    pub schema_path: String,
    pub field_name: String,
    pub field_type: String,
    pub field_count: i64,
}

/// The rows of a report.
pub struct ReportData {
    pub schemas: Vec<SchemaCount>,
    pub object_paths: Vec<SchemaObjectPath>,
    pub array_index_refs: Vec<SchemaArrayIndexRef>,
    pub fields: Vec<FieldCount>,
}

/// The tables of an index: the kind and the object count of each schema path, the schema path
/// of each object path and of each item position, the label and the count of each field.
pub struct IndexTables {
    pub definitions: OrdMap<String, String>,
    pub object_counts: OrdMap<String, i64>,
    pub schema_paths: OrdMap<String, String>,
    pub array_index_refs: OrdMap<(String, String), String>,
    pub field_counts: OrdMap<(String, String), (String, i64)>,
}

impl IndexTables {
    pub open spec fn wf(self) -> bool {
        &&& self.definitions.wf()
        &&& self.object_counts.wf()
        &&& self.schema_paths.wf()
        &&& self.array_index_refs.wf()
        &&& self.field_counts.wf()
    }

    pub fn new() -> (r: Self)
        ensures
            r.wf(),
            r.definitions.map() == Map::<Seq<char>, String>::empty(),
            r.object_counts.map() == Map::<Seq<char>, i64>::empty(),
            r.schema_paths.map() == Map::<Seq<char>, String>::empty(),
            r.array_index_refs.map() == Map::<(Seq<char>, Seq<char>), String>::empty(),
            r.field_counts.map() == Map::<(Seq<char>, Seq<char>), (String, i64)>::empty(),
    {
        IndexTables {
            definitions: OrdMap::new(),
            object_counts: OrdMap::new(),
            schema_paths: OrdMap::new(),
            array_index_refs: OrdMap::new(),
            field_counts: OrdMap::new(),
        }
    }

    /// The object count of a schema, zero if it has none.
    pub open spec fn count_of(self, p: Seq<char>) -> int {
        if self.object_counts.map().contains_key(p) {
            self.object_counts.map()[p] as int
        } else {
            0
        }
    }

    /// The kind of a schema.
    pub open spec fn kind_of(self, p: Seq<char>) -> Seq<char> {
        self.definitions.map()[p]@
    }

    /// Some object path has the schema path `p`.
    pub open spec fn in_use(self, p: Seq<char>) -> bool {
        exists|k: Seq<char>| #[trigger]
            self.schema_paths.map().contains_key(k) && self.schema_paths.map()[k]@ == p
    }

    /// The schema is defined, and some object path has it.
    pub open spec fn listed(self, p: Seq<char>) -> bool {
        self.definitions.map().contains_key(p) && self.in_use(p)
    }

    pub fn object_count(&self, p: &String) -> (r: i64)
        requires
            self.wf(),
        ensures
            r == self.count_of(p@),
    {
        match self.object_counts.get(p) {
            Some(n) => *n,
            None => 0,
        }
    }
}

/// The schema paths in use that are defined, in the order of the object paths.
pub open spec fn schema_list(t: IndexTables, n: int) -> Seq<(nat, Seq<char>)>
    decreases n,
{
    if n <= 0 {
        Seq::empty()
    } else {
        let p = t.schema_paths.entries@[n - 1].1@;
        if t.definitions.map().contains_key(p) {
            schema_list(t, n - 1).push((rank(t.count_of(p)), p))
        } else {
            schema_list(t, n - 1)
        }
    }
}

/// The schema paths of a report: those with the most objects first, then by path.
pub open spec fn schema_order(t: IndexTables) -> Seq<(nat, Seq<char>)> {
    order::sorted_set(schema_list(t, t.schema_paths.entries@.len() as int))
}

pub open spec fn path_list(t: IndexTables, n: int) -> Seq<((nat, Seq<char>), Seq<char>)>
    decreases n,
{
    if n <= 0 {
        Seq::empty()
    } else {
        let p = t.schema_paths.entries@[n - 1].1@;
        if t.listed(p) {
            path_list(t, n - 1).push(
                ((rank(t.count_of(p)), p), t.schema_paths.entries@[n - 1].0@),
            )
        } else {
            path_list(t, n - 1)
        }
    }
}

pub open spec fn path_order(t: IndexTables) -> Seq<((nat, Seq<char>), Seq<char>)> {
    order::sorted_set(path_list(t, t.schema_paths.entries@.len() as int))
}

pub open spec fn ref_list(t: IndexTables, n: int) -> Seq<
    (((nat, Seq<char>), Seq<char>), Seq<char>),
>
    decreases n,
{
    if n <= 0 {
        Seq::empty()
    } else {
        let row = t.array_index_refs.entries@[n - 1];
        let p = row.1@;
        if t.listed(p) {
            ref_list(t, n - 1).push((((rank(t.count_of(p)), p), row.0.0@), row.0.1@))
        } else {
            ref_list(t, n - 1)
        }
    }
}

pub open spec fn ref_order(t: IndexTables) -> Seq<(((nat, Seq<char>), Seq<char>), Seq<char>)> {
    order::sorted_set(ref_list(t, t.array_index_refs.entries@.len() as int))
}

pub open spec fn field_list(t: IndexTables, n: int) -> Seq<
    (((nat, Seq<char>), nat), Seq<char>),
>
    decreases n,
{
    if n <= 0 {
        Seq::empty()
    } else {
        let row = t.field_counts.entries@[n - 1];
        let p = row.0.0@;
        if t.listed(p) {
            field_list(t, n - 1).push(
                (((rank(t.count_of(p)), p), rank(row.1.1 as int)), row.0.1@),
            )
        } else {
            field_list(t, n - 1)
        }
    }
}

/// The fields of a report: by schema in the order of the schemas, the most frequent first,
/// then by name.
pub open spec fn field_order(t: IndexTables) -> Seq<(((nat, Seq<char>), nat), Seq<char>)> {
    order::sorted_set(field_list(t, t.field_counts.entries@.len() as int))
}

/// The cells of a table.
pub open spec fn schema_cells(s: SchemaCount) -> Seq<Seq<char>> {
    seq![s.schema_path@, s.schema_kind@, text::signed_decimal(s.object_count as int)]
}

pub open spec fn path_cells(s: SchemaObjectPath) -> Seq<Seq<char>> {
    seq![s.schema_path@, s.object_path@]
}

pub open spec fn ref_cells(s: SchemaArrayIndexRef) -> Seq<Seq<char>> {
    seq![s.schema_path@, s.array_path@, s.array_index_path@]
}

pub open spec fn field_cells(s: FieldCount) -> Seq<Seq<char>> {
    seq![
        s.schema_path@,
        s.field_name@,
        s.field_type@,
        text::signed_decimal(s.field_count as int),
    ]
}

/// The rows that a report on `t` holds.
pub open spec fn reports(t: IndexTables, r: ReportData) -> bool {
    &&& r.schemas@.len() == schema_order(t).len()
    &&& forall|i: int|
        0 <= i < r.schemas@.len() ==> {
            let p = schema_order(t)[i].1;
            &&& (#[trigger] r.schemas@[i]).schema_path@ == p
            &&& r.schemas@[i].schema_kind@ == t.kind_of(p)
            &&& r.schemas@[i].object_count == t.count_of(p)
        }
    &&& r.object_paths@.len() == path_order(t).len()
    &&& forall|i: int|
        0 <= i < r.object_paths@.len() ==> (#[trigger] r.object_paths@[i]).schema_path@
            == path_order(t)[i].0.1 && r.object_paths@[i].object_path@ == path_order(t)[i].1
    &&& r.array_index_refs@.len() == ref_order(t).len()
    &&& forall|i: int|
        0 <= i < r.array_index_refs@.len() ==> (#[trigger] r.array_index_refs@[i]).schema_path@
            == ref_order(t)[i].0.0.1 && r.array_index_refs@[i].array_path@ == ref_order(t)[i].0.1
            && r.array_index_refs@[i].array_index_path@ == ref_order(t)[i].1
    &&& r.fields@.len() == field_order(t).len()
    &&& forall|i: int|
        0 <= i < r.fields@.len() ==> {
            let k = field_order(t)[i];
            let v = t.field_counts.map()[(k.0.0.1, k.1)];
            &&& (#[trigger] r.fields@[i]).schema_path@ == k.0.0.1
            &&& r.fields@[i].field_name@ == k.1
            &&& r.fields@[i].field_type@ == v.0@
            &&& r.fields@[i].field_count == v.1
        }
}

/// What is sorted was in the list.
pub proof fn lemma_sorted_elements<K: order::Ordered>(list: Seq<K>, i: int)
    requires
        0 <= i < order::sorted_set(list).len(),
    ensures
        list.contains(order::sorted_set(list)[i]),
{
    order::lemma_sorted_set(list);
    assert(order::sorted_set(list).contains(order::sorted_set(list)[i]));
}

proof fn lemma_schema_list(t: IndexTables, n: int, k: (nat, Seq<char>))
    requires
        schema_list(t, n).contains(k),
    ensures
        t.definitions.map().contains_key(k.1),
    decreases n,
{
    if n > 0 {
        let p = t.schema_paths.entries@[n - 1].1@;
        if t.definitions.map().contains_key(p) {
            let whole = schema_list(t, n);
            let i = choose|i: int| 0 <= i < whole.len() && whole[i] == k;
            if i < schema_list(t, n - 1).len() {
                assert(schema_list(t, n - 1)[i] == k);
                lemma_schema_list(t, n - 1, k);
            }
        } else {
            lemma_schema_list(t, n - 1, k);
        }
    }
}

proof fn lemma_field_list(t: IndexTables, n: int, k: (((nat, Seq<char>), nat), Seq<char>))
    requires
        t.wf(),
        n <= t.field_counts.entries@.len(),
        field_list(t, n).contains(k),
    ensures
        t.field_counts.map().contains_key((k.0.0.1, k.1)),
    decreases n,
{
    if n > 0 {
        let row = t.field_counts.entries@[n - 1];
        t.field_counts.lemma_entry(n - 1);
        assert(row.0.model() == (row.0.0@, row.0.1@));
        if t.listed(row.0.0@) {
            let whole = field_list(t, n);
            let i = choose|i: int| 0 <= i < whole.len() && whole[i] == k;
            if i < field_list(t, n - 1).len() {
                assert(field_list(t, n - 1)[i] == k);
                lemma_field_list(t, n - 1, k);
            }
        } else {
            lemma_field_list(t, n - 1, k);
        }
    }
}

/// The schema paths that object paths have.
fn used_paths(t: &IndexTables) -> (r: OrdMap<String, ()>)
    requires
        t.wf(),
    ensures
        r.wf(),
        forall|p: Seq<char>| #[trigger] r.map().contains_key(p) <==> t.in_use(p),
{
    let rows = &t.schema_paths.entries;
    let mut used: OrdMap<String, ()> = OrdMap::new();
    let mut i: usize = 0;
    while i < rows.len()
        invariant
            t.wf(),
            *rows == t.schema_paths.entries,
            i <= rows@.len(),
            used.wf(),
            forall|p: Seq<char>| #[trigger]
                used.map().contains_key(p) <==> exists|j: int|
                    0 <= j < i && (#[trigger] rows@[j]).1@ == p,
        decreases rows@.len() - i,
    {
        let ghost before = used;
        used.insert(rows[i].1.clone(), ());
        proof {
            assert forall|p: Seq<char>| #[trigger]
                used.map().contains_key(p) <==> exists|j: int|
                    0 <= j < i + 1 && (#[trigger] rows@[j]).1@ == p by {
                if used.map().contains_key(p) {
                    if p == rows@[i as int].1@ {
                        assert(rows@[i as int].1@ == p);
                    } else {
                        assert(before.map().contains_key(p));
                        let j = choose|j: int| 0 <= j < i && (#[trigger] rows@[j]).1@ == p;
                        assert(rows@[j].1@ == p);
                    }
                }
                if exists|j: int| 0 <= j < i + 1 && (#[trigger] rows@[j]).1@ == p {
                    let j = choose|j: int| 0 <= j < i + 1 && (#[trigger] rows@[j]).1@ == p;
                    if j < i {
                        assert(before.map().contains_key(p));
                    }
                }
            }
        }
        i = i + 1;
    }
    proof {
        assert forall|p: Seq<char>| #[trigger] used.map().contains_key(p) <==> t.in_use(p) by {
            if used.map().contains_key(p) {
                let j = choose|j: int| 0 <= j < rows@.len() && (#[trigger] rows@[j]).1@ == p;
                t.schema_paths.lemma_entry(j);
                assert(t.schema_paths.map().contains_key(rows@[j].0@));
            }
            if t.in_use(p) {
                let k = choose|k: Seq<char>| #[trigger]
                    t.schema_paths.map().contains_key(k) && t.schema_paths.map()[k]@ == p;
                let j = t.schema_paths.keys().index_of(k);
                assert(t.schema_paths.keys()[j] == rows@[j].0@);
                t.schema_paths.lemma_entry(j);
                assert(rows@[j].1@ == p);
            }
        }
    }
    used
}

fn is_listed(t: &IndexTables, used: &OrdMap<String, ()>, p: &String) -> (r: bool)
    requires
        t.wf(),
        used.wf(),
        forall|q: Seq<char>| #[trigger] used.map().contains_key(q) <==> t.in_use(q),
    ensures
        r == t.listed(p@),
{
    t.definitions.get(p).is_some() && used.get(p).is_some()
}

fn schema_rows(t: &IndexTables) -> (r: Vec<SchemaCount>)
    requires
        t.wf(),
    ensures
        r@.len() == schema_order(*t).len(),
        forall|i: int|
            0 <= i < r@.len() ==> {
                let p = schema_order(*t)[i].1;
                &&& (#[trigger] r@[i]).schema_path@ == p
                &&& r@[i].schema_kind@ == t.kind_of(p)
                &&& r@[i].object_count == t.count_of(p)
            },
{
    let rows = &t.schema_paths.entries;
    let mut list: Vec<(Descending, String)> = Vec::new();
    let mut i: usize = 0;
    assert(text::models(list@) =~= Seq::empty());
    while i < rows.len()
        invariant
            t.wf(),
            *rows == t.schema_paths.entries,
            i <= rows@.len(),
            text::models(list@) == schema_list(*t, i as int),
        decreases rows@.len() - i,
    {
        let p = &rows[i].1;
        if t.definitions.get(p).is_some() {
            let ghost before = list@;
            list.push((Descending { value: t.object_count(p) }, p.clone()));
            assert(text::models(list@) =~= text::models(before).push(
                (rank(t.count_of(p@)), p@),
            ));
        }
        i = i + 1;
    }
    let ghost whole = schema_list(*t, rows@.len() as int);
    let sorted = sorted_vec(list);
    let mut out: Vec<SchemaCount> = Vec::new();
    let mut i: usize = 0;
    while i < sorted.len()
        invariant
            t.wf(),
            i <= sorted@.len(),
            whole == schema_list(*t, t.schema_paths.entries@.len() as int),
            text::models(sorted@) == order::sorted_set(whole),
            out@.len() == i,
            forall|j: int|
                0 <= j < i ==> {
                    let p = schema_order(*t)[j].1;
                    &&& (#[trigger] out@[j]).schema_path@ == p
                    &&& out@[j].schema_kind@ == t.kind_of(p)
                    &&& out@[j].object_count == t.count_of(p)
                },
        decreases sorted@.len() - i,
    {
        let p = &sorted[i].1;
        proof {
            assert(text::models(sorted@)[i as int] == sorted@[i as int].model());
            lemma_sorted_elements(whole, i as int);
            lemma_schema_list(
                *t,
                t.schema_paths.entries@.len() as int,
                schema_order(*t)[i as int],
            );
        }
        let schema_kind = match t.definitions.get(p) {
            Some(kind) => kind.clone(),
            None => String::new(),
        };
        out.push(
            SchemaCount { schema_path: p.clone(), schema_kind, object_count: t.object_count(p) },
        );
        i = i + 1;
    }
    out
}

fn path_rows(t: &IndexTables, used: &OrdMap<String, ()>) -> (r: Vec<SchemaObjectPath>)
    requires
        t.wf(),
        used.wf(),
        forall|q: Seq<char>| #[trigger] used.map().contains_key(q) <==> t.in_use(q),
    ensures
        r@.len() == path_order(*t).len(),
        forall|i: int|
            0 <= i < r@.len() ==> (#[trigger] r@[i]).schema_path@ == path_order(*t)[i].0.1
                && r@[i].object_path@ == path_order(*t)[i].1,
{
    let rows = &t.schema_paths.entries;
    let mut list: Vec<((Descending, String), String)> = Vec::new();
    let mut i: usize = 0;
    assert(text::models(list@) =~= Seq::empty());
    while i < rows.len()
        invariant
            t.wf(),
            used.wf(),
            forall|q: Seq<char>| #[trigger] used.map().contains_key(q) <==> t.in_use(q),
            *rows == t.schema_paths.entries,
            i <= rows@.len(),
            text::models(list@) == path_list(*t, i as int),
        decreases rows@.len() - i,
    {
        let p = &rows[i].1;
        if is_listed(t, used, p) {
            let ghost before = list@;
            list.push(((Descending { value: t.object_count(p) }, p.clone()), rows[i].0.clone()));
            assert(text::models(list@) =~= text::models(before).push(
                ((rank(t.count_of(p@)), p@), rows@[i as int].0@),
            ));
        }
        i = i + 1;
    }
    let sorted = sorted_vec(list);
    let mut out: Vec<SchemaObjectPath> = Vec::new();
    let mut i: usize = 0;
    while i < sorted.len()
        invariant
            i <= sorted@.len(),
            text::models(sorted@) == path_order(*t),
            out@.len() == i,
            forall|j: int|
                0 <= j < i ==> (#[trigger] out@[j]).schema_path@ == path_order(*t)[j].0.1
                    && out@[j].object_path@ == path_order(*t)[j].1,
        decreases sorted@.len() - i,
    {
        assert(text::models(sorted@)[i as int] == sorted@[i as int].model());
        out.push(
            SchemaObjectPath {
                schema_path: sorted[i].0.1.clone(),
                object_path: sorted[i].1.clone(),
            },
        );
        i = i + 1;
    }
    out
}

fn ref_rows(t: &IndexTables, used: &OrdMap<String, ()>) -> (r: Vec<SchemaArrayIndexRef>)
    requires
        t.wf(),
        used.wf(),
        forall|q: Seq<char>| #[trigger] used.map().contains_key(q) <==> t.in_use(q),
    ensures
        r@.len() == ref_order(*t).len(),
        forall|i: int|
            0 <= i < r@.len() ==> (#[trigger] r@[i]).schema_path@ == ref_order(*t)[i].0.0.1
                && r@[i].array_path@ == ref_order(*t)[i].0.1 && r@[i].array_index_path@
                == ref_order(*t)[i].1,
{
    let rows = &t.array_index_refs.entries;
    let mut list: Vec<(((Descending, String), String), String)> = Vec::new();
    let mut i: usize = 0;
    assert(text::models(list@) =~= Seq::empty());
    while i < rows.len()
        invariant
            t.wf(),
            used.wf(),
            forall|q: Seq<char>| #[trigger] used.map().contains_key(q) <==> t.in_use(q),
            *rows == t.array_index_refs.entries,
            i <= rows@.len(),
            text::models(list@) == ref_list(*t, i as int),
        decreases rows@.len() - i,
    {
        let p = &rows[i].1;
        if is_listed(t, used, p) {
            let ghost before = list@;
            list.push(
                (
                    (
                        (Descending { value: t.object_count(p) }, p.clone()),
                        rows[i].0.0.clone(),
                    ),
                    rows[i].0.1.clone(),
                ),
            );
            assert(text::models(list@) =~= text::models(before).push(
                (
                    ((rank(t.count_of(p@)), p@), rows@[i as int].0.0@),
                    rows@[i as int].0.1@,
                ),
            ));
        }
        i = i + 1;
    }
    let sorted = sorted_vec(list);
    let mut out: Vec<SchemaArrayIndexRef> = Vec::new();
    let mut i: usize = 0;
    while i < sorted.len()
        invariant
            i <= sorted@.len(),
            text::models(sorted@) == ref_order(*t),
            out@.len() == i,
            forall|j: int|
                0 <= j < i ==> (#[trigger] out@[j]).schema_path@ == ref_order(*t)[j].0.0.1
                    && out@[j].array_path@ == ref_order(*t)[j].0.1 && out@[j].array_index_path@
                    == ref_order(*t)[j].1,
        decreases sorted@.len() - i,
    {
        assert(text::models(sorted@)[i as int] == sorted@[i as int].model());
        out.push(
            SchemaArrayIndexRef {
                schema_path: sorted[i].0.0.1.clone(),
                array_path: sorted[i].0.1.clone(),
                array_index_path: sorted[i].1.clone(),
            },
        );
        i = i + 1;
    }
    out
}

fn field_rows(t: &IndexTables, used: &OrdMap<String, ()>) -> (r: Vec<FieldCount>)
    requires
        t.wf(),
        used.wf(),
        forall|q: Seq<char>| #[trigger] used.map().contains_key(q) <==> t.in_use(q),
    ensures
        r@.len() == field_order(*t).len(),
        forall|i: int|
            0 <= i < r@.len() ==> {
                let k = field_order(*t)[i];
                let v = t.field_counts.map()[(k.0.0.1, k.1)];
                &&& (#[trigger] r@[i]).schema_path@ == k.0.0.1
                &&& r@[i].field_name@ == k.1
                &&& r@[i].field_type@ == v.0@
                &&& r@[i].field_count == v.1
            },
{
    let rows = &t.field_counts.entries;
    let mut list: Vec<(((Descending, String), Descending), String)> = Vec::new();
    let mut i: usize = 0;
    assert(text::models(list@) =~= Seq::empty());
    while i < rows.len()
        invariant
            t.wf(),
            used.wf(),
            forall|q: Seq<char>| #[trigger] used.map().contains_key(q) <==> t.in_use(q),
            *rows == t.field_counts.entries,
            i <= rows@.len(),
            text::models(list@) == field_list(*t, i as int),
        decreases rows@.len() - i,
    {
        let p = &rows[i].0.0;
        if is_listed(t, used, p) {
            let ghost before = list@;
            list.push(
                (
                    (
                        (Descending { value: t.object_count(p) }, p.clone()),
                        Descending { value: rows[i].1.1 },
                    ),
                    rows[i].0.1.clone(),
                ),
            );
            assert(text::models(list@) =~= text::models(before).push(
                (
                    ((rank(t.count_of(p@)), p@), rank(rows@[i as int].1.1 as int)),
                    rows@[i as int].0.1@,
                ),
            ));
        }
        i = i + 1;
    }
    let ghost whole = field_list(*t, rows@.len() as int);
    let sorted = sorted_vec(list);
    let mut out: Vec<FieldCount> = Vec::new();
    let mut i: usize = 0;
    while i < sorted.len()
        invariant
            t.wf(),
            i <= sorted@.len(),
            whole == field_list(*t, t.field_counts.entries@.len() as int),
            text::models(sorted@) == order::sorted_set(whole),
            out@.len() == i,
            forall|j: int|
                0 <= j < i ==> {
                    let k = field_order(*t)[j];
                    let v = t.field_counts.map()[(k.0.0.1, k.1)];
                    &&& (#[trigger] out@[j]).schema_path@ == k.0.0.1
                    &&& out@[j].field_name@ == k.1
                    &&& out@[j].field_type@ == v.0@
                    &&& out@[j].field_count == v.1
                },
        decreases sorted@.len() - i,
    {
        proof {
            assert(text::models(sorted@)[i as int] == sorted@[i as int].model());
            lemma_sorted_elements(whole, i as int);
            lemma_field_list(
                *t,
                t.field_counts.entries@.len() as int,
                field_order(*t)[i as int],
            );
        }
        let key = (sorted[i].0.0.1.clone(), sorted[i].1.clone());
        assert(key.model() == (key.0@, key.1@));
        if let Some(v) = t.field_counts.get(&key) {
            out.push(
                FieldCount {
                    schema_path: key.0,
                    field_name: key.1,
                    field_type: v.0.clone(),
                    field_count: v.1,
                },
            );
        }
        i = i + 1;
    }
    out
}

/// The rows of a report on the tables of an index.
pub fn read_report_data(t: &IndexTables) -> (r: ReportData)
    requires
        t.wf(),
    ensures
        reports(*t, r),
{
    let used = used_paths(t);
    ReportData {
        schemas: schema_rows(t),
        object_paths: path_rows(t, &used),
        array_index_refs: ref_rows(t, &used),
        fields: field_rows(t, &used),
    }
}

/// Rows of cells, with tabs between the cells.
pub open spec fn rows_text(rows: Seq<Seq<Seq<char>>>) -> Seq<char>
    decreases rows.len(),
{
    if rows.len() == 0 {
        Seq::empty()
    } else {
        rows_text(rows.drop_last()) + row_text(rows.last())
    }
}

pub open spec fn row_text(cells: Seq<Seq<char>>) -> Seq<char> {
    text::joined(cells, "\t"@) + "\n"@
}

/// A section: its name, its header, its rows and an empty line.
pub open spec fn section(head: Seq<char>, rows: Seq<Seq<Seq<char>>>) -> Seq<char> {
    head + rows_text(rows) + "\n"@
}

pub open spec fn schemas_section(r: ReportData) -> Seq<char> {
    section(
        "[schemas]\nschema_path\tschema_kind\tobject_count\n"@,
        Seq::new(r.schemas@.len(), |i: int| schema_cells(r.schemas@[i])),
    )
}

pub open spec fn object_paths_section(r: ReportData) -> Seq<char> {
    section(
        "[schema_object_paths]\nschema_path\tobject_path\n"@,
        Seq::new(r.object_paths@.len(), |i: int| path_cells(r.object_paths@[i])),
    )
}

pub open spec fn array_index_refs_section(r: ReportData) -> Seq<char> {
    section(
        "[schema_array_index_refs]\nschema_path\tarray_path\tarray_index_path\n"@,
        Seq::new(r.array_index_refs@.len(), |i: int| ref_cells(r.array_index_refs@[i])),
    )
}

pub open spec fn fields_section(r: ReportData) -> Seq<char> {
    section(
        "[fields]\nschema_path\tfield_name\tfield_type\tfield_count\n"@,
        Seq::new(r.fields@.len(), |i: int| field_cells(r.fields@[i])),
    )
}

/// The object paths whose schemas have other paths.
pub open spec fn alias_rows(paths: Seq<SchemaObjectPath>) -> Seq<Seq<Seq<char>>>
    decreases paths.len(),
{
    if paths.len() == 0 {
        Seq::empty()
    } else if paths.last().schema_path@ != paths.last().object_path@ {
        alias_rows(paths.drop_last()).push(path_cells(paths.last()))
    } else {
        alias_rows(paths.drop_last())
    }
}

/// The section of aliases; nothing if there are none.
pub open spec fn aliases_section(r: ReportData) -> Seq<char> {
    let rows = alias_rows(r.object_paths@);
    if rows.len() == 0 {
        Seq::empty()
    } else {
        section("[schema_aliases]\nschema_path\tobject_path\n"@, rows)
    }
}

fn push_row(out: &mut String, cells: &Vec<String>)
    ensures
        final(out)@ == old(out)@ + row_text(text::models(cells@)),
{
    let ghost before = out@;
    out.append(join_texts(cells, "\t").as_str());
    out.append("\n");
    assert(out@ =~= before + row_text(text::models(cells@)));
}

pub fn push_schemas_section(out: &mut String, report: &ReportData)
    ensures
        final(out)@ == old(out)@ + schemas_section(*report),
{
    let ghost before = out@;
    let ghost rows = Seq::new(report.schemas@.len(), |i: int| schema_cells(report.schemas@[i]));
    out.append("[schemas]\nschema_path\tschema_kind\tobject_count\n");
    let ghost head = out@;
    let mut i: usize = 0;
    assert(rows.take(0) =~= Seq::empty());
    assert(head + rows_text(rows.take(0)) =~= head);
    while i < report.schemas.len()
        invariant
            rows == Seq::new(report.schemas@.len(), |i: int| schema_cells(report.schemas@[i])),
            i <= report.schemas@.len(),
            out@ == head + rows_text(rows.take(i as int)),
        decreases report.schemas@.len() - i,
    {
        let row = &report.schemas[i];
        let mut cells: Vec<String> = Vec::new();
        cells.push(row.schema_path.clone());
        cells.push(row.schema_kind.clone());
        cells.push(signed_decimal_text(row.object_count));
        proof {
            assert(text::models(cells@) =~= rows[i as int]);
            assert(rows.take(i + 1).drop_last() =~= rows.take(i as int));
        }
        push_row(out, &cells);
        assert(out@ =~= head + rows_text(rows.take(i + 1)));
        i = i + 1;
    }
    out.append("\n");
    proof {
        assert(rows.take(rows.len() as int) =~= rows);
        assert(out@ =~= before + schemas_section(*report));
    }
}

pub fn push_schema_object_paths_section(out: &mut String, report: &ReportData)
    ensures
        final(out)@ == old(out)@ + object_paths_section(*report),
{
    let ghost before = out@;
    let ghost rows = Seq::new(
        report.object_paths@.len(),
        |i: int| path_cells(report.object_paths@[i]),
    );
    out.append("[schema_object_paths]\nschema_path\tobject_path\n");
    let ghost head = out@;
    let mut i: usize = 0;
    assert(rows.take(0) =~= Seq::empty());
    assert(head + rows_text(rows.take(0)) =~= head);
    while i < report.object_paths.len()
        invariant
            rows == Seq::new(
                report.object_paths@.len(),
                |i: int| path_cells(report.object_paths@[i]),
            ),
            i <= report.object_paths@.len(),
            out@ == head + rows_text(rows.take(i as int)),
        decreases report.object_paths@.len() - i,
    {
        push_path_row(out, &report.object_paths[i]);
        proof {
            assert(rows.take(i + 1).drop_last() =~= rows.take(i as int));
            assert(out@ =~= head + rows_text(rows.take(i + 1)));
        }
        i = i + 1;
    }
    out.append("\n");
    proof {
        assert(rows.take(rows.len() as int) =~= rows);
        assert(out@ =~= before + object_paths_section(*report));
    }
}

fn push_path_row(out: &mut String, row: &SchemaObjectPath)
    ensures
        final(out)@ == old(out)@ + row_text(path_cells(*row)),
{
    let mut cells: Vec<String> = Vec::new();
    cells.push(row.schema_path.clone());
    cells.push(row.object_path.clone());
    assert(text::models(cells@) =~= path_cells(*row));
    push_row(out, &cells);
}

pub fn push_schema_aliases_section_if_non_empty(out: &mut String, report: &ReportData)
    ensures
        final(out)@ == old(out)@ + aliases_section(*report),
{
    let ghost before = out@;
    let ghost paths = report.object_paths@;
    let mut rows = String::new();
    let mut found = false;
    let mut i: usize = 0;
    assert(paths.take(0) =~= Seq::empty());
    while i < report.object_paths.len()
        invariant
            paths == report.object_paths@,
            i <= paths.len(),
            rows@ == rows_text(alias_rows(paths.take(i as int))),
            found == (alias_rows(paths.take(i as int)).len() > 0),
        decreases paths.len() - i,
    {
        let row = &report.object_paths[i];
        proof {
            assert(paths.take(i + 1).drop_last() =~= paths.take(i as int));
            assert(paths.take(i + 1).last() == *row);
        }
        if !same_text(row.schema_path.as_str(), row.object_path.as_str()) {
            push_path_row(&mut rows, row);
            found = true;
            proof {
                let more = alias_rows(paths.take(i + 1));
                assert(more.drop_last() =~= alias_rows(paths.take(i as int)));
            }
        }
        i = i + 1;
    }
    assert(paths.take(paths.len() as int) =~= paths);
    if found {
        out.append("[schema_aliases]\nschema_path\tobject_path\n");
        out.append(rows.as_str());
        out.append("\n");
    }
    assert(out@ =~= before + aliases_section(*report));
}

pub fn push_schema_array_index_refs_section(out: &mut String, report: &ReportData)
    ensures
        final(out)@ == old(out)@ + array_index_refs_section(*report),
{
    let ghost before = out@;
    let ghost rows = Seq::new(
        report.array_index_refs@.len(),
        |i: int| ref_cells(report.array_index_refs@[i]),
    );
    out.append("[schema_array_index_refs]\nschema_path\tarray_path\tarray_index_path\n");
    let ghost head = out@;
    let mut i: usize = 0;
    assert(rows.take(0) =~= Seq::empty());
    assert(head + rows_text(rows.take(0)) =~= head);
    while i < report.array_index_refs.len()
        invariant
            rows == Seq::new(
                report.array_index_refs@.len(),
                |i: int| ref_cells(report.array_index_refs@[i]),
            ),
            i <= report.array_index_refs@.len(),
            out@ == head + rows_text(rows.take(i as int)),
        decreases report.array_index_refs@.len() - i,
    {
        let row = &report.array_index_refs[i];
        let mut cells: Vec<String> = Vec::new();
        cells.push(row.schema_path.clone());
        cells.push(row.array_path.clone());
        cells.push(row.array_index_path.clone());
        proof {
            assert(text::models(cells@) =~= rows[i as int]);
            assert(rows.take(i + 1).drop_last() =~= rows.take(i as int));
        }
        push_row(out, &cells);
        assert(out@ =~= head + rows_text(rows.take(i + 1)));
        i = i + 1;
    }
    out.append("\n");
    proof {
        assert(rows.take(rows.len() as int) =~= rows);
        assert(out@ =~= before + array_index_refs_section(*report));
    }
}

pub fn push_fields_section(out: &mut String, report: &ReportData)
    ensures
        final(out)@ == old(out)@ + fields_section(*report),
{
    let ghost before = out@;
    let ghost rows = Seq::new(report.fields@.len(), |i: int| field_cells(report.fields@[i]));
    out.append("[fields]\nschema_path\tfield_name\tfield_type\tfield_count\n");
    let ghost head = out@;
    let mut i: usize = 0;
    assert(rows.take(0) =~= Seq::empty());
    assert(head + rows_text(rows.take(0)) =~= head);
    while i < report.fields.len()
        invariant
            rows == Seq::new(report.fields@.len(), |i: int| field_cells(report.fields@[i])),
            i <= report.fields@.len(),
            out@ == head + rows_text(rows.take(i as int)),
        decreases report.fields@.len() - i,
    {
        let row = &report.fields[i];
        let mut cells: Vec<String> = Vec::new();
        cells.push(row.schema_path.clone());
        cells.push(row.field_name.clone());
        cells.push(row.field_type.clone());
        cells.push(signed_decimal_text(row.field_count));
        proof {
            assert(text::models(cells@) =~= rows[i as int]);
            assert(rows.take(i + 1).drop_last() =~= rows.take(i as int));
        }
        push_row(out, &cells);
        assert(out@ =~= head + rows_text(rows.take(i + 1)));
        i = i + 1;
    }
    out.append("\n");
    proof {
        assert(rows.take(rows.len() as int) =~= rows);
        assert(out@ =~= before + fields_section(*report));
    }
}

/// Where a report came from.
#[derive(Debug)]
pub enum ReportSummary {
    Generated { execution_time_ms: u128, input_source: String },
    FromSqlite { sqlite_path: String },
}

/// How much a report shows.
#[derive(Clone, Copy, PartialEq, Eq, Structural, Debug)]
pub enum ReportDetail {
    CompactStdout,
    FullFile,
}

/// The numbers of a summary.
#[derive(Clone, Copy, PartialEq, Eq, Structural, Debug)]
pub struct SummaryCounts {
    pub schemas: usize,
    pub fields: usize,
    pub object_paths: usize,
    pub aliases: usize,
    pub array_index_refs: usize,
}

/// A name and a value.
pub open spec fn named(name: Seq<char>, value: Seq<char>) -> Seq<Seq<char>> {
    seq![name, value]
}

pub open spec fn summary_rows(counts: SummaryCounts) -> Seq<Seq<Seq<char>>> {
    seq![
        named("schema_count"@, text::decimal(counts.schemas as nat)),
        named("field_count"@, text::decimal(counts.fields as nat)),
        named("object_path_mapping_count"@, text::decimal(counts.object_paths as nat)),
        named("schema_alias_count"@, text::decimal(counts.aliases as nat)),
        named("array_index_ref_count"@, text::decimal(counts.array_index_refs as nat)),
    ]
}

pub open spec fn source_rows(summary: ReportSummary) -> Seq<Seq<Seq<char>>> {
    match summary {
        ReportSummary::Generated { execution_time_ms, input_source } => seq![
            named("execution_time_ms"@, text::decimal(execution_time_ms as nat)),
            named("input"@, input_source@),
        ],
        ReportSummary::FromSqlite { sqlite_path } => seq![named("sqlite_path"@, sqlite_path@)],
    }
}

pub open spec fn output_rows(output_path: Option<Seq<char>>) -> Seq<Seq<Seq<char>>> {
    match output_path {
        Some(p) => seq![named("report"@, p)],
        None => Seq::empty(),
    }
}

/// The summary of a report.
pub open spec fn summary_text(
    counts: SummaryCounts,
    summary: ReportSummary,
    output_path: Option<Seq<char>>,
) -> Seq<char> {
    "[summary]\n"@ + rows_text(
        summary_rows(counts) + source_rows(summary) + output_rows(output_path),
    )
}

fn push_named(out: &mut String, name: &str, value: String, Ghost(head): Ghost<Seq<char>>, Ghost(
    rows,
): Ghost<Seq<Seq<Seq<char>>>>)
    requires
        old(out)@ == head + rows_text(rows),
    ensures
        final(out)@ == head + rows_text(rows.push(named(name@, value@))),
{
    let mut cells: Vec<String> = Vec::new();
    let ghost row = named(name@, value@);
    cells.push(name.to_string());
    cells.push(value);
    proof {
        assert(text::models(cells@) =~= row);
        assert(rows.push(row).drop_last() =~= rows);
    }
    push_row(out, &cells);
    assert(out@ =~= head + rows_text(rows.push(row)));
}

/// The text of a summary.
pub fn render_summary_counts(
    counts: SummaryCounts,
    summary: &ReportSummary,
    output_path: Option<&str>,
) -> (r: String)
    ensures
        r@ == summary_text(
            counts,
            *summary,
            match output_path {
                Some(p) => Some(p@),
                None => None,
            },
        ),
{
    let mut out = "[summary]\n".to_string();
    let ghost head = "[summary]\n"@;
    let ghost rows = Seq::<Seq<Seq<char>>>::empty();
    assert(out@ =~= head + rows_text(rows));
    push_named(
        &mut out,
        "schema_count",
        decimal_text(counts.schemas as u128),
        Ghost(head),
        Ghost(rows),
    );
    let ghost rows = rows.push(
        named("schema_count"@, text::decimal(counts.schemas as nat)),
    );
    push_named(
        &mut out,
        "field_count",
        decimal_text(counts.fields as u128),
        Ghost(head),
        Ghost(rows),
    );
    let ghost rows = rows.push(named("field_count"@, text::decimal(counts.fields as nat)));
    push_named(
        &mut out,
        "object_path_mapping_count",
        decimal_text(counts.object_paths as u128),
        Ghost(head),
        Ghost(rows),
    );
    let ghost rows = rows.push(
        named("object_path_mapping_count"@, text::decimal(counts.object_paths as nat)),
    );
    push_named(
        &mut out,
        "schema_alias_count",
        decimal_text(counts.aliases as u128),
        Ghost(head),
        Ghost(rows),
    );
    let ghost rows = rows.push(
        named("schema_alias_count"@, text::decimal(counts.aliases as nat)),
    );
    push_named(
        &mut out,
        "array_index_ref_count",
        decimal_text(counts.array_index_refs as u128),
        Ghost(head),
        Ghost(rows),
    );
    let ghost rows = rows.push(
        named("array_index_ref_count"@, text::decimal(counts.array_index_refs as nat)),
    );
    assert(rows =~= summary_rows(counts));
    let ghost mut rows = rows;
    match summary {
        ReportSummary::Generated { execution_time_ms, input_source } => {
            push_named(
                &mut out,
                "execution_time_ms",
                decimal_text(*execution_time_ms),
                Ghost(head),
                Ghost(rows),
            );
            proof {
                rows = rows.push(
                    named("execution_time_ms"@, text::decimal(*execution_time_ms as nat)),
                );
            }
            push_named(&mut out, "input", input_source.clone(), Ghost(head), Ghost(rows));
            proof {
                rows = rows.push(named("input"@, input_source@));
            }
        },
        ReportSummary::FromSqlite { sqlite_path } => {
            push_named(&mut out, "sqlite_path", sqlite_path.clone(), Ghost(head), Ghost(rows));
            proof {
                rows = rows.push(named("sqlite_path"@, sqlite_path@));
            }
        },
    }
    assert(rows =~= summary_rows(counts) + source_rows(*summary));
    if let Some(p) = output_path {
        push_named(&mut out, "report", p.to_string(), Ghost(head), Ghost(rows));
        proof {
            rows = rows.push(named("report"@, p@));
        }
    }
    assert(rows =~= summary_rows(counts) + source_rows(*summary) + output_rows(
        match output_path {
            Some(p) => Some(p@),
            None => None,
        },
    ));
    out
}

/// The numbers of the rows of a report.
pub open spec fn counts_of_report(r: ReportData, counts: SummaryCounts) -> bool {
    &&& counts.schemas == r.schemas@.len()
    &&& counts.fields == r.fields@.len()
    &&& counts.object_paths == r.object_paths@.len()
    &&& counts.aliases == alias_rows(r.object_paths@).len()
    &&& counts.array_index_refs == r.array_index_refs@.len()
}

/// The numbers of the rows of a report, all together.
pub open spec fn numbers_of(r: ReportData) -> SummaryCounts {
    SummaryCounts {
        schemas: r.schemas@.len() as usize,
        fields: r.fields@.len() as usize,
        object_paths: r.object_paths@.len() as usize,
        aliases: alias_rows(r.object_paths@).len() as usize,
        array_index_refs: r.array_index_refs@.len() as usize,
    }
}

fn count_report(report: &ReportData) -> (r: SummaryCounts)
    ensures
        counts_of_report(*report, r),
        r == numbers_of(*report),
{
    let ghost paths = report.object_paths@;
    let mut aliases: usize = 0;
    let mut i: usize = 0;
    assert(paths.take(0) =~= Seq::empty());
    while i < report.object_paths.len()
        invariant
            paths == report.object_paths@,
            i <= paths.len(),
            aliases <= i,
            aliases == alias_rows(paths.take(i as int)).len(),
        decreases paths.len() - i,
    {
        let row = &report.object_paths[i];
        proof {
            assert(paths.take(i + 1).drop_last() =~= paths.take(i as int));
            assert(paths.take(i + 1).last() == *row);
        }
        if !same_text(row.schema_path.as_str(), row.object_path.as_str()) {
            aliases = aliases + 1;
        }
        i = i + 1;
    }
    assert(paths.take(paths.len() as int) =~= paths);
    SummaryCounts {
        schemas: report.schemas.len(),
        fields: report.fields.len(),
        object_paths: report.object_paths.len(),
        aliases,
        array_index_refs: report.array_index_refs.len(),
    }
}

/// The summary of a report.
pub fn render_summary(report: &ReportData, summary: &ReportSummary, output_path: Option<&str>) -> (r:
    String)
    ensures
        counts_of_report(*report, numbers_of(*report)),
        r@ == summary_text(
            numbers_of(*report),
            *summary,
            match output_path {
                Some(p) => Some(p@),
                None => None,
            },
        ),
        forall|counts: SummaryCounts| #[trigger]
            counts_of_report(*report, counts) ==> r@ == summary_text(
                counts,
                *summary,
                match output_path {
                    Some(p) => Some(p@),
                    None => None,
                },
            ),
{
    let found = count_report(report);
    proof {
        assert forall|counts: SummaryCounts| #[trigger]
            counts_of_report(*report, counts) implies counts == found by {}
    }
    render_summary_counts(found, summary, output_path)
}

/// The sections of a report ahead of its summary.
pub open spec fn report_body(r: ReportData, detail: ReportDetail) -> Seq<char> {
    "# dump-json-refs report\n\n"@ + schemas_section(r) + match detail {
        ReportDetail::CompactStdout => fields_section(r) + aliases_section(r),
        ReportDetail::FullFile => object_paths_section(r) + array_index_refs_section(r)
            + fields_section(r),
    }
}

/// The sections of a report ahead of its summary.
pub fn render_report_body(report: &ReportData, detail: ReportDetail) -> (r: String)
    ensures
        r@ == report_body(*report, detail),
{
    let mut out = "# dump-json-refs report\n\n".to_string();
    push_schemas_section(&mut out, report);
    match detail {
        ReportDetail::CompactStdout => {
            push_fields_section(&mut out, report);
            push_schema_aliases_section_if_non_empty(&mut out, report);
        },
        ReportDetail::FullFile => {
            push_schema_object_paths_section(&mut out, report);
            push_schema_array_index_refs_section(&mut out, report);
            push_fields_section(&mut out, report);
        },
    }
    assert(out@ =~= report_body(*report, detail));
    out
}

/// The text of a report.
pub fn render_report(report: &ReportData, summary: &ReportSummary, detail: ReportDetail) -> (r:
    String)
    ensures
        counts_of_report(*report, numbers_of(*report)),
        r@ == report_body(*report, detail) + summary_text(numbers_of(*report), *summary, None),
        forall|counts: SummaryCounts| #[trigger]
            counts_of_report(*report, counts) ==> r@ == report_body(*report, detail)
                + summary_text(counts, *summary, None),
{
    let mut out = render_report_body(report, detail);
    out.append(render_summary(report, summary, None).as_str());
    out
}

/// The numbers of a summary that is made from the tables themselves.
pub open spec fn counts_of_tables(t: IndexTables, counts: SummaryCounts) -> bool {
    &&& counts.schemas == schema_order(t).len()
    &&& counts.fields == t.field_counts.entries@.len()
    &&& counts.object_paths == t.schema_paths.entries@.len()
    &&& counts.aliases == alias_count(t, t.schema_paths.entries@.len() as int)
    &&& counts.array_index_refs == t.array_index_refs.entries@.len()
}

/// How many of the first `n` object paths have schemas with other paths.
pub open spec fn alias_count(t: IndexTables, n: int) -> nat
    decreases n,
{
    if n <= 0 {
        0
    } else {
        let row = t.schema_paths.entries@[n - 1];
        alias_count(t, n - 1) + if row.0@ != row.1@ {
            1nat
        } else {
            0
        }
    }
}

/// Counts the rows of the tables of an index; `report` is the report on them.
pub fn count_tables(t: &IndexTables, report: &ReportData) -> (r: SummaryCounts)
    requires
        t.wf(),
        reports(*t, *report),
    ensures
        counts_of_tables(*t, r),
{
    let rows = &t.schema_paths.entries;
    let mut aliases: usize = 0;
    let mut i: usize = 0;
    while i < rows.len()
        invariant
            *rows == t.schema_paths.entries,
            i <= rows@.len(),
            aliases <= i,
            aliases == alias_count(*t, i as int),
        decreases rows@.len() - i,
    {
        if !same_text(rows[i].0.as_str(), rows[i].1.as_str()) {
            aliases = aliases + 1;
        }
        i = i + 1;
    }
    SummaryCounts {
        schemas: report.schemas.len(),
        fields: t.field_counts.entries.len(),
        object_paths: rows.len(),
        aliases,
        array_index_refs: t.array_index_refs.entries.len(),
    }
}

} // verus!
