//! Accumulating the facts of a stream of objects, with numbers in place of names.

use crate::index;
use crate::index::texts_from_pairs;
use crate::interns;
use crate::interns::{FieldId, PathId, StreamInterns};
use crate::joins::join_tables;
use crate::json;
use crate::json::{Json, JsonValue};
use crate::kinds;
use crate::names;
use crate::names::Names;
use crate::order;
use crate::ordmap::{Key, OrdMap};
use crate::path;
use crate::recorder;
use crate::recorder::{record_object, Recorder, RecorderModel, StreamError};
use crate::tables;
use crate::tables::{ItemSchemaCountAggregate, Log, Tables, ValueAggregate};
use crate::text;
use crate::walk;
use crate::walk::{copy_indexes, Role};
use vstd::prelude::*;

verus! {

/// Something in which numbers may stand for names.
pub trait Named: Key {
    /// The same with the names.
    type Name: Key;

    /// What a value is once `paths` and `fields` have been put for the numbers.
    spec fn name(
        m: Self::Model,
        paths: Seq<Seq<char>>,
        fields: Seq<Seq<char>>,
    ) -> <Self::Name as Key>::Model;

    /// The numbers stand for names.
    spec fn known(m: Self::Model, paths: nat, fields: nat) -> bool;

    proof fn injective(
        a: Self::Model,
        b: Self::Model,
        paths: Seq<Seq<char>>,
        fields: Seq<Seq<char>>,
    )
        requires
            paths.no_duplicates(),
            fields.no_duplicates(),
            Self::known(a, paths.len(), fields.len()),
            Self::known(b, paths.len(), fields.len()),
            Self::name(a, paths, fields) == Self::name(b, paths, fields),
        ensures
            a == b,
    ;

    proof fn grows(
        m: Self::Model,
        paths: Seq<Seq<char>>,
        fields: Seq<Seq<char>>,
        more_paths: Seq<Seq<char>>,
        more_fields: Seq<Seq<char>>,
    )
        requires
            interns::starts(paths, more_paths),
            interns::starts(fields, more_fields),
            Self::known(m, paths.len(), fields.len()),
        ensures
            Self::known(m, more_paths.len(), more_fields.len()),
            Self::name(m, more_paths, more_fields) == Self::name(m, paths, fields),
    ;

    fn named(&self, interns: &StreamInterns) -> (r: Self::Name)
        requires
            Self::known(
                self.model(),
                interns.path_names().len(),
                interns.field_names().len(),
            ),
        ensures
            r.model() == Self::name(self.model(), interns.path_names(), interns.field_names()),
    ;
}

impl Named for PathId {
    type Name = String;

    open spec fn name(m: nat, paths: Seq<Seq<char>>, fields: Seq<Seq<char>>) -> Seq<char> {
        paths[m as int]
    }

    open spec fn known(m: nat, paths: nat, fields: nat) -> bool {
        m < paths
    }

    proof fn injective(a: nat, b: nat, paths: Seq<Seq<char>>, fields: Seq<Seq<char>>) {
    }

    proof fn grows(
        m: nat,
        paths: Seq<Seq<char>>,
        fields: Seq<Seq<char>>,
        more_paths: Seq<Seq<char>>,
        more_fields: Seq<Seq<char>>,
    ) {
        assert(more_paths.take(paths.len() as int)[m as int] == more_paths[m as int]);
    }

    fn named(&self, interns: &StreamInterns) -> (r: String) {
        interns.resolve_path(*self).to_string()
    }
}

impl Named for FieldId {
    type Name = String;

    open spec fn name(m: nat, paths: Seq<Seq<char>>, fields: Seq<Seq<char>>) -> Seq<char> {
        fields[m as int]
    }

    open spec fn known(m: nat, paths: nat, fields: nat) -> bool {
        m < fields
    }

    proof fn injective(a: nat, b: nat, paths: Seq<Seq<char>>, fields: Seq<Seq<char>>) {
    }

    proof fn grows(
        m: nat,
        paths: Seq<Seq<char>>,
        fields: Seq<Seq<char>>,
        more_paths: Seq<Seq<char>>,
        more_fields: Seq<Seq<char>>,
    ) {
        assert(more_fields.take(fields.len() as int)[m as int] == more_fields[m as int]);
    }

    fn named(&self, interns: &StreamInterns) -> (r: String) {
        interns.resolve_field(*self).to_string()
    }
}

impl Named for Role {
    type Name = Role;

    open spec fn name(m: nat, paths: Seq<Seq<char>>, fields: Seq<Seq<char>>) -> nat {
        m
    }

    open spec fn known(m: nat, paths: nat, fields: nat) -> bool {
        true
    }

    proof fn injective(a: nat, b: nat, paths: Seq<Seq<char>>, fields: Seq<Seq<char>>) {
    }

    proof fn grows(
        m: nat,
        paths: Seq<Seq<char>>,
        fields: Seq<Seq<char>>,
        more_paths: Seq<Seq<char>>,
        more_fields: Seq<Seq<char>>,
    ) {
    }

    fn named(&self, interns: &StreamInterns) -> (r: Role) {
        *self
    }
}

impl Named for u64 {
    type Name = u64;

    open spec fn name(m: nat, paths: Seq<Seq<char>>, fields: Seq<Seq<char>>) -> nat {
        m
    }

    open spec fn known(m: nat, paths: nat, fields: nat) -> bool {
        true
    }

    proof fn injective(a: nat, b: nat, paths: Seq<Seq<char>>, fields: Seq<Seq<char>>) {
    }

    proof fn grows(
        m: nat,
        paths: Seq<Seq<char>>,
        fields: Seq<Seq<char>>,
        more_paths: Seq<Seq<char>>,
        more_fields: Seq<Seq<char>>,
    ) {
    }

    fn named(&self, interns: &StreamInterns) -> (r: u64) {
        *self
    }
}

impl Named for String {
    type Name = String;

    open spec fn name(m: Seq<char>, paths: Seq<Seq<char>>, fields: Seq<Seq<char>>) -> Seq<char> {
        m
    }

    open spec fn known(m: Seq<char>, paths: nat, fields: nat) -> bool {
        true
    }

    proof fn injective(a: Seq<char>, b: Seq<char>, paths: Seq<Seq<char>>, fields: Seq<Seq<char>>) {
    }

    proof fn grows(
        m: Seq<char>,
        paths: Seq<Seq<char>>,
        fields: Seq<Seq<char>>,
        more_paths: Seq<Seq<char>>,
        more_fields: Seq<Seq<char>>,
    ) {
    }

    fn named(&self, interns: &StreamInterns) -> (r: String) {
        self.clone()
    }
}

impl Named for Vec<usize> {
    type Name = Vec<usize>;

    open spec fn name(m: Seq<nat>, paths: Seq<Seq<char>>, fields: Seq<Seq<char>>) -> Seq<nat> {
        m
    }

    open spec fn known(m: Seq<nat>, paths: nat, fields: nat) -> bool {
        true
    }

    proof fn injective(a: Seq<nat>, b: Seq<nat>, paths: Seq<Seq<char>>, fields: Seq<Seq<char>>) {
    }

    proof fn grows(
        m: Seq<nat>,
        paths: Seq<Seq<char>>,
        fields: Seq<Seq<char>>,
        more_paths: Seq<Seq<char>>,
        more_fields: Seq<Seq<char>>,
    ) {
    }

    fn named(&self, interns: &StreamInterns) -> (r: Vec<usize>) {
        copy_indexes(self)
    }
}

impl<A: Named, B: Named> Named for (A, B) {
    type Name = (A::Name, B::Name);

    open spec fn name(
        m: (A::Model, B::Model),
        paths: Seq<Seq<char>>,
        fields: Seq<Seq<char>>,
    ) -> (<A::Name as Key>::Model, <B::Name as Key>::Model) {
        (A::name(m.0, paths, fields), B::name(m.1, paths, fields))
    }

    open spec fn known(m: (A::Model, B::Model), paths: nat, fields: nat) -> bool {
        A::known(m.0, paths, fields) && B::known(m.1, paths, fields)
    }

    proof fn injective(
        a: (A::Model, B::Model),
        b: (A::Model, B::Model),
        paths: Seq<Seq<char>>,
        fields: Seq<Seq<char>>,
    ) {
        A::injective(a.0, b.0, paths, fields);
        B::injective(a.1, b.1, paths, fields);
    }

    proof fn grows(
        m: (A::Model, B::Model),
        paths: Seq<Seq<char>>,
        fields: Seq<Seq<char>>,
        more_paths: Seq<Seq<char>>,
        more_fields: Seq<Seq<char>>,
    ) {
        A::grows(m.0, paths, fields, more_paths, more_fields);
        B::grows(m.1, paths, fields, more_paths, more_fields);
    }

    fn named(&self, interns: &StreamInterns) -> (r: (A::Name, B::Name)) {
        (self.0.named(interns), self.1.named(interns))
    }
}

/// The pairs with names in their first components.
pub open spec fn renamed<K: Named, V>(
    pairs: Seq<(K::Model, V)>,
    paths: Seq<Seq<char>>,
    fields: Seq<Seq<char>>,
) -> Seq<(<K::Name as Key>::Model, V)> {
    Seq::new(pairs.len(), |i: int| (K::name(pairs[i].0, paths, fields), pairs[i].1))
}

pub open spec fn all_known<K: Named, V>(
    pairs: Seq<(K::Model, V)>,
    paths: nat,
    fields: nat,
) -> bool {
    forall|i: int| 0 <= i < pairs.len() ==> K::known((#[trigger] pairs[i]).0, paths, fields)
}

proof fn lemma_renamed_grows<K: Named, V>(
    pairs: Seq<(K::Model, V)>,
    paths: Seq<Seq<char>>,
    fields: Seq<Seq<char>>,
    more_paths: Seq<Seq<char>>,
    more_fields: Seq<Seq<char>>,
)
    requires
        interns::starts(paths, more_paths),
        interns::starts(fields, more_fields),
        all_known::<K, V>(pairs, paths.len(), fields.len()),
    ensures
        all_known::<K, V>(pairs, more_paths.len(), more_fields.len()),
        renamed::<K, V>(pairs, more_paths, more_fields) == renamed::<K, V>(pairs, paths, fields),
{
    assert forall|i: int| 0 <= i < pairs.len() implies K::known(
        (#[trigger] pairs[i]).0,
        more_paths.len(),
        more_fields.len(),
    ) && K::name(pairs[i].0, more_paths, more_fields) == K::name(pairs[i].0, paths, fields) by {
        K::grows(pairs[i].0, paths, fields, more_paths, more_fields);
    }
    assert(renamed::<K, V>(pairs, more_paths, more_fields) =~= renamed::<K, V>(
        pairs,
        paths,
        fields,
    ));
}

/// Under a name stands what stood under its number.
proof fn lemma_renamed_under<K: Named, V>(
    pairs: Seq<(K::Model, V)>,
    k: K::Model,
    paths: Seq<Seq<char>>,
    fields: Seq<Seq<char>>,
)
    requires
        paths.no_duplicates(),
        fields.no_duplicates(),
        all_known::<K, V>(pairs, paths.len(), fields.len()),
        K::known(k, paths.len(), fields.len()),
    ensures
        order::under(renamed::<K, V>(pairs, paths, fields), K::name(k, paths, fields))
            == order::under(pairs, k),
    decreases pairs.len(),
{
    let names = renamed::<K, V>(pairs, paths, fields);
    if pairs.len() > 0 {
        let d = pairs.drop_last();
        assert forall|i: int| 0 <= i < d.len() implies K::known(
            (#[trigger] d[i]).0,
            paths.len(),
            fields.len(),
        ) by {
            assert(K::known(pairs[i].0, paths.len(), fields.len()));
        }
        lemma_renamed_under::<K, V>(d, k, paths, fields);
        assert(names.drop_last() =~= renamed::<K, V>(d, paths, fields));
        let last = pairs[pairs.len() - 1].0;
        assert(K::known(last, paths.len(), fields.len()));
        if K::name(last, paths, fields) == K::name(k, paths, fields) {
            K::injective(last, k, paths, fields);
        }
    }
}

/// Names occur as often as their numbers.
proof fn lemma_renamed_fit<K: Named, V>(
    pairs: Seq<(K::Model, V)>,
    paths: Seq<Seq<char>>,
    fields: Seq<Seq<char>>,
)
    requires
        paths.no_duplicates(),
        fields.no_duplicates(),
        all_known::<K, V>(pairs, paths.len(), fields.len()),
    ensures
        tables::counts_fit(renamed::<K, V>(pairs, paths, fields)) <==> tables::counts_fit(pairs),
{
    let names = renamed::<K, V>(pairs, paths, fields);
    if tables::counts_fit(pairs) {
        assert forall|x: <K::Name as Key>::Model| (#[trigger] order::under(names, x)).len()
            <= i64::MAX by {
            order::lemma_under_nonempty(names, x);
            if order::firsts(names).contains(x) {
                let i = choose|i: int| 0 <= i < names.len() && order::firsts(names)[i] == x;
                let k = pairs[i].0;
                lemma_renamed_under::<K, V>(pairs, k, paths, fields);
                assert(order::under(pairs, k).len() <= i64::MAX);
            }
        }
    }
    if tables::counts_fit(names) {
        assert forall|k: K::Model| (#[trigger] order::under(pairs, k)).len() <= i64::MAX by {
            order::lemma_under_nonempty(pairs, k);
            if order::firsts(pairs).contains(k) {
                let i = choose|i: int| 0 <= i < pairs.len() && order::firsts(pairs)[i] == k;
                assert(K::known(pairs[i].0, paths.len(), fields.len()));
                lemma_renamed_under::<K, V>(pairs, k, paths, fields);
                assert(order::under(names, K::name(k, paths, fields)).len() <= i64::MAX);
            }
        }
    }
}

proof fn lemma_renamed_firsts<K: Named, V>(
    pairs: Seq<(K::Model, V)>,
    paths: Seq<Seq<char>>,
    fields: Seq<Seq<char>>,
    x: <K::Name as Key>::Model,
)
    requires
        all_known::<K, V>(pairs, paths.len(), fields.len()),
    ensures
        order::firsts(renamed::<K, V>(pairs, paths, fields)).contains(x) <==> exists|k: K::Model|
            #[trigger]
            order::firsts(pairs).contains(k) && K::known(k, paths.len(), fields.len()) && K::name(
                k,
                paths,
                fields,
            ) == x,
{
    let names = order::firsts(renamed::<K, V>(pairs, paths, fields));
    let ids = order::firsts(pairs);
    if names.contains(x) {
        let i = choose|i: int| 0 <= i < names.len() && names[i] == x;
        assert(K::known(pairs[i].0, paths.len(), fields.len()));
        assert(ids[i] == pairs[i].0);
        assert(ids.contains(pairs[i].0));
    }
    if exists|k: K::Model| #[trigger]
        ids.contains(k) && K::known(k, paths.len(), fields.len()) && K::name(k, paths, fields)
            == x {
        let k = choose|k: K::Model| #[trigger]
            ids.contains(k) && K::known(k, paths.len(), fields.len()) && K::name(k, paths, fields)
                == x;
        let i = choose|i: int| 0 <= i < ids.len() && ids[i] == k;
        assert(names[i] == x);
    }
}

/// `after` is `before` with names in its keys.
pub open spec fn same_table<K: Named, V>(
    before: OrdMap<K, V>,
    after: OrdMap<K::Name, V>,
    paths: Seq<Seq<char>>,
    fields: Seq<Seq<char>>,
) -> bool {
    &&& after.wf()
    &&& forall|k: K::Model| #[trigger]
        before.map().contains_key(k) ==> after.map().contains_key(K::name(k, paths, fields))
            && after.map()[K::name(k, paths, fields)] == before.map()[k]
    &&& forall|x: <K::Name as Key>::Model| #[trigger]
        after.map().contains_key(x) ==> exists|k: K::Model| #[trigger]
            before.map().contains_key(k) && K::name(k, paths, fields) == x
}

/// Puts names in the keys of a table.
fn rename_table<K: Named, V>(m: OrdMap<K, V>, interns: &StreamInterns) -> (r: OrdMap<K::Name, V>)
    requires
        m.wf(),
        interns.wf(),
        forall|k: K::Model| #[trigger]
            m.map().contains_key(k) ==> K::known(
                k,
                interns.path_names().len(),
                interns.field_names().len(),
            ),
    ensures
        same_table(m, r, interns.path_names(), interns.field_names()),
{
    let ghost paths = interns.path_names();
    let ghost fields = interns.field_names();
    let ghost entries = m.entries@;
    let ghost before = m;
    proof {
        interns.lemma_distinct();
        assert forall|i: int| 0 <= i < entries.len() implies before.map().contains_key(
            (#[trigger] entries[i]).0.model(),
        ) && before.map()[entries[i].0.model()] == entries[i].1 by {
            before.lemma_entry(i);
        }
    }
    let mut out: OrdMap<K::Name, V> = OrdMap::new();
    for entry in it: m.entries
        invariant
            it.seq() == entries,
            entries == before.entries@,
            before.wf(),
            interns.wf(),
            paths == interns.path_names(),
            fields == interns.field_names(),
            paths.no_duplicates(),
            fields.no_duplicates(),
            forall|k: K::Model| #[trigger]
                before.map().contains_key(k) ==> K::known(k, paths.len(), fields.len()),
            forall|i: int|
                0 <= i < entries.len() ==> before.map().contains_key(
                    (#[trigger] entries[i]).0.model(),
                ) && before.map()[entries[i].0.model()] == entries[i].1,
            out.wf(),
            forall|i: int|
                0 <= i < it.index() ==> out.map().contains_key(
                    K::name((#[trigger] entries[i]).0.model(), paths, fields),
                ) && out.map()[K::name(entries[i].0.model(), paths, fields)] == entries[i].1,
            forall|x: <K::Name as Key>::Model| #[trigger]
                out.map().contains_key(x) ==> exists|k: K::Model| #[trigger]
                    before.map().contains_key(k) && K::name(k, paths, fields) == x,
    {
        let ghost n = it.index() as int;
        let ghost so_far = out;
        let ghost k = entry.0.model();
        assert(entry == entries[n]);
        let name = entry.0.named(interns);
        out.insert(name, entry.1);
        proof {
            assert forall|i: int| 0 <= i < n + 1 implies out.map().contains_key(
                K::name((#[trigger] entries[i]).0.model(), paths, fields),
            ) && out.map()[K::name(entries[i].0.model(), paths, fields)] == entries[i].1 by {
                if i < n {
                    let j = entries[i].0.model();
                    if K::name(j, paths, fields) == K::name(k, paths, fields) {
                        K::injective(j, k, paths, fields);
                        order::lemma_before_excludes(before.keys()[i], before.keys()[n]);
                    }
                }
            }
        }
    }
    proof {
        assert forall|k: K::Model| #[trigger] before.map().contains_key(k) implies out.map().contains_key(
            K::name(k, paths, fields),
        ) && out.map()[K::name(k, paths, fields)] == before.map()[k] by {
            let i = before.keys().index_of(k);
            assert(before.keys()[i] == entries[i].0.model());
        }
    }
    out
}

proof fn lemma_same_keys<K: Named, V, W>(
    before: OrdMap<K, V>,
    after: OrdMap<K::Name, V>,
    pairs: Seq<(K::Model, W)>,
    paths: Seq<Seq<char>>,
    fields: Seq<Seq<char>>,
)
    requires
        same_table(before, after, paths, fields),
        all_known::<K, W>(pairs, paths.len(), fields.len()),
        forall|k: K::Model| #[trigger]
            before.map().contains_key(k) <==> order::firsts(pairs).contains(k),
    ensures
        forall|k: K::Model| #[trigger]
            before.map().contains_key(k) ==> K::known(k, paths.len(), fields.len()),
        forall|x: <K::Name as Key>::Model| #[trigger]
            after.map().contains_key(x) <==> order::firsts(
                renamed::<K, W>(pairs, paths, fields),
            ).contains(x),
{
    lemma_known_keys::<K, W>(pairs, paths.len(), fields.len());
    assert forall|x: <K::Name as Key>::Model| #[trigger]
        after.map().contains_key(x) <==> order::firsts(
            renamed::<K, W>(pairs, paths, fields),
        ).contains(x) by {
        lemma_renamed_firsts::<K, W>(pairs, paths, fields, x);
        if after.map().contains_key(x) {
            let k = choose|k: K::Model| #[trigger]
                before.map().contains_key(k) && K::name(k, paths, fields) == x;
            assert(order::firsts(pairs).contains(k));
        }
        if order::firsts(renamed::<K, W>(pairs, paths, fields)).contains(x) {
            let k = choose|k: K::Model| #[trigger]
                order::firsts(pairs).contains(k) && K::known(k, paths.len(), fields.len())
                    && K::name(k, paths, fields) == x;
            assert(before.map().contains_key(k));
        }
    }
}

proof fn lemma_known_keys<K: Named, W>(pairs: Seq<(K::Model, W)>, paths: nat, fields: nat)
    requires
        all_known::<K, W>(pairs, paths, fields),
    ensures
        forall|k: K::Model| #[trigger]
            order::firsts(pairs).contains(k) ==> K::known(k, paths, fields),
{
    assert forall|k: K::Model| #[trigger] order::firsts(pairs).contains(k) implies K::known(
        k,
        paths,
        fields,
    ) by {
        let i = choose|i: int| 0 <= i < pairs.len() && order::firsts(pairs)[i] == k;
        assert(K::known(pairs[i].0, paths, fields));
    }
}

proof fn lemma_counts_renamed<K: Named, W>(
    before: OrdMap<K, i64>,
    after: OrdMap<K::Name, i64>,
    pairs: Seq<(K::Model, W)>,
    paths: Seq<Seq<char>>,
    fields: Seq<Seq<char>>,
)
    requires
        paths.no_duplicates(),
        fields.no_duplicates(),
        same_table(before, after, paths, fields),
        all_known::<K, W>(pairs, paths.len(), fields.len()),
        tables::counts_entries(before, pairs),
    ensures
        tables::counts_entries(after, renamed::<K, W>(pairs, paths, fields)),
{
    lemma_same_keys(before, after, pairs, paths, fields);
    assert forall|x: <K::Name as Key>::Model| #[trigger]
        after.map().contains_key(x) implies after.map()[x] == order::under(
        renamed::<K, W>(pairs, paths, fields),
        x,
    ).len() by {
        let k = choose|k: K::Model| #[trigger]
            before.map().contains_key(k) && K::name(k, paths, fields) == x;
        lemma_renamed_under::<K, W>(pairs, k, paths, fields);
    }
}

proof fn lemma_sums_renamed<K: Named>(
    before: OrdMap<K, ValueAggregate>,
    after: OrdMap<K::Name, ValueAggregate>,
    pairs: Seq<(K::Model, Json)>,
    paths: Seq<Seq<char>>,
    fields: Seq<Seq<char>>,
)
    requires
        paths.no_duplicates(),
        fields.no_duplicates(),
        same_table(before, after, paths, fields),
        all_known::<K, Json>(pairs, paths.len(), fields.len()),
        tables::sums_values(before, pairs),
    ensures
        tables::sums_values(after, renamed::<K, Json>(pairs, paths, fields)),
{
    lemma_same_keys(before, after, pairs, paths, fields);
    let names = renamed::<K, Json>(pairs, paths, fields);
    assert forall|x: <K::Name as Key>::Model| #[trigger]
        after.map().contains_key(x) implies after.map()[x].count == order::under(names, x).len()
        && after.map()[x].counts.tally() == kinds::tally(order::under(names, x)) by {
        let k = choose|k: K::Model| #[trigger]
            before.map().contains_key(k) && K::name(k, paths, fields) == x;
        lemma_renamed_under::<K, Json>(pairs, k, paths, fields);
    }
}

proof fn lemma_schemas_renamed<K: Named>(
    before: OrdMap<K, ItemSchemaCountAggregate>,
    after: OrdMap<K::Name, ItemSchemaCountAggregate>,
    pairs: Seq<(K::Model, Seq<(Seq<char>, Seq<char>)>)>,
    paths: Seq<Seq<char>>,
    fields: Seq<Seq<char>>,
)
    requires
        paths.no_duplicates(),
        fields.no_duplicates(),
        same_table(before, after, paths, fields),
        all_known::<K, Seq<(Seq<char>, Seq<char>)>>(pairs, paths.len(), fields.len()),
        tables::sums_schemas(before, pairs),
    ensures
        tables::sums_schemas(
            after,
            renamed::<K, Seq<(Seq<char>, Seq<char>)>>(pairs, paths, fields),
        ),
{
    lemma_same_keys(before, after, pairs, paths, fields);
    let names = renamed::<K, Seq<(Seq<char>, Seq<char>)>>(pairs, paths, fields);
    assert forall|x: <K::Name as Key>::Model| #[trigger]
        after.map().contains_key(x) implies after.map()[x].object_count == order::under(
        names,
        x,
    ).len() && json::schema_model(after.map()[x].schema@) == order::under(names, x)[0] by {
        let k = choose|k: K::Model| #[trigger]
            before.map().contains_key(k) && K::name(k, paths, fields) == x;
        lemma_renamed_under::<K, Seq<(Seq<char>, Seq<char>)>>(pairs, k, paths, fields);
    }
}

/// The last value under a key that occurs is the last one beside it.
pub proof fn lemma_last_wins_under<K, V>(pairs: Seq<(K, V)>, k: K)
    ensures
        index::last_wins(pairs).contains_key(k) <==> order::under(pairs, k).len() > 0,
        order::under(pairs, k).len() > 0 ==> index::last_wins(pairs)[k] == order::under(
            pairs,
            k,
        ).last(),
    decreases pairs.len(),
{
    if pairs.len() > 0 {
        lemma_last_wins_under(pairs.drop_last(), k);
    }
}

/// Puts names in the keys of pairs.
fn rename_pairs<K: Named>(pairs: Vec<(K, String)>, interns: &StreamInterns) -> (r: Vec<
    (K::Name, String),
>)
    requires
        all_known::<K, Seq<char>>(
            index::text_pairs(pairs@),
            interns.path_names().len(),
            interns.field_names().len(),
        ),
    ensures
        index::text_pairs(r@) == renamed::<K, Seq<char>>(
            index::text_pairs(pairs@),
            interns.path_names(),
            interns.field_names(),
        ),
{
    let ghost given = pairs@;
    let ghost models = index::text_pairs(given);
    let ghost target = renamed::<K, Seq<char>>(
        models,
        interns.path_names(),
        interns.field_names(),
    );
    let mut out: Vec<(K::Name, String)> = Vec::new();
    for pair in it: pairs
        invariant
            it.seq() == given,
            models == index::text_pairs(given),
            all_known::<K, Seq<char>>(
                models,
                interns.path_names().len(),
                interns.field_names().len(),
            ),
            target == renamed::<K, Seq<char>>(
                models,
                interns.path_names(),
                interns.field_names(),
            ),
            out@.len() == it.index(),
            forall|i: int|
                0 <= i < out@.len() ==> ((#[trigger] out@[i]).0.model(), out@[i].1@) == target[i],
    {
        assert(models[it.index() as int] == (pair.0.model(), pair.1@));
        out.push((pair.0.named(interns), pair.1));
    }
    assert(index::text_pairs(out@) =~= target);
    out
}

/// A log with names in place of numbers.
pub open spec fn named_log(
    log: Log<nat, nat>,
    paths: Seq<Seq<char>>,
    fields: Seq<Seq<char>>,
) -> Log<Seq<char>, Seq<char>> {
    Log {
        objects: renamed::<PathId, ()>(log.objects, paths, fields),
        fields: renamed::<(PathId, FieldId), Json>(log.fields, paths, fields),
        members: renamed::<(PathId, u64), Json>(log.members, paths, fields),
        items: renamed::<((Role, PathId), String), Seq<(Seq<char>, Seq<char>)>>(
            log.items,
            paths,
            fields,
        ),
        refs: renamed::<((Role, PathId), Vec<usize>), Seq<char>>(log.refs, paths, fields),
        item_fields: renamed::<(((Role, PathId), String), FieldId), ()>(
            log.item_fields,
            paths,
            fields,
        ),
    }
}

/// Every number in a log stands for a name.
pub open spec fn known_log(log: Log<nat, nat>, paths: nat, fields: nat) -> bool {
    &&& all_known::<PathId, ()>(log.objects, paths, fields)
    &&& all_known::<(PathId, FieldId), Json>(log.fields, paths, fields)
    &&& all_known::<(PathId, u64), Json>(log.members, paths, fields)
    &&& all_known::<((Role, PathId), String), Seq<(Seq<char>, Seq<char>)>>(
        log.items,
        paths,
        fields,
    )
    &&& all_known::<((Role, PathId), Vec<usize>), Seq<char>>(log.refs, paths, fields)
    &&& all_known::<(((Role, PathId), String), FieldId), ()>(log.item_fields, paths, fields)
}

proof fn lemma_named_log_grows(
    log: Log<nat, nat>,
    paths: Seq<Seq<char>>,
    fields: Seq<Seq<char>>,
    more_paths: Seq<Seq<char>>,
    more_fields: Seq<Seq<char>>,
)
    requires
        interns::starts(paths, more_paths),
        interns::starts(fields, more_fields),
        known_log(log, paths.len(), fields.len()),
    ensures
        known_log(log, more_paths.len(), more_fields.len()),
        named_log(log, more_paths, more_fields) == named_log(log, paths, fields),
{
    lemma_renamed_grows::<PathId, ()>(log.objects, paths, fields, more_paths, more_fields);
    lemma_renamed_grows::<(PathId, FieldId), Json>(
        log.fields,
        paths,
        fields,
        more_paths,
        more_fields,
    );
    lemma_renamed_grows::<(PathId, u64), Json>(
        log.members,
        paths,
        fields,
        more_paths,
        more_fields,
    );
    lemma_renamed_grows::<((Role, PathId), String), Seq<(Seq<char>, Seq<char>)>>(
        log.items,
        paths,
        fields,
        more_paths,
        more_fields,
    );
    lemma_renamed_grows::<((Role, PathId), Vec<usize>), Seq<char>>(
        log.refs,
        paths,
        fields,
        more_paths,
        more_fields,
    );
    lemma_renamed_grows::<(((Role, PathId), String), FieldId), ()>(
        log.item_fields,
        paths,
        fields,
        more_paths,
        more_fields,
    );
}

/// A log without the canonical texts of items by position.
pub open spec fn without_refs<P, F>(log: Log<P, F>) -> Log<P, F> {
    Log { refs: Seq::empty(), ..log }
}

/// Facts by numbers that stand for paths and field names. The canonical texts of items by
/// position are held as they came.
pub struct StreamAcc {
    interns: StreamInterns,
    tables: Tables<PathId, FieldId>,
    refs: Vec<(((Role, PathId), Vec<usize>), String)>,
    entries: Ghost<Log<nat, nat>>,
}

impl RecorderModel for StreamAcc {
    type Place = PathId;

    closed spec fn log(self) -> Log<Seq<char>, Seq<char>> {
        named_log(self.entries@, self.interns.path_names(), self.interns.field_names())
    }

    closed spec fn ready(self) -> bool {
        &&& self.interns.wf()
        &&& self.tables.holds(without_refs(self.entries@))
        &&& index::text_pairs(self.refs@) == self.entries@.refs
        &&& tables::depths_fit(self.entries@.members)
        &&& known_log(
            self.entries@,
            self.interns.path_names().len(),
            self.interns.field_names().len(),
        )
    }

    closed spec fn knows(self, place: PathId) -> bool {
        place.id < self.interns.path_names().len()
    }

    closed spec fn place_path(self, place: PathId) -> Seq<char> {
        self.interns.path_names()[place.id as int]
    }

    open spec fn limited() -> bool {
        true
    }

    closed spec fn names(self) -> Names {
        self.interns.names()
    }

    proof fn bounded(self) {
        let log = self.entries@;
        let paths = self.interns.path_names();
        let fields = self.interns.field_names();
        self.interns.lemma_distinct();
        self.tables.lemma_counted(without_refs(log));
        lemma_renamed_fit::<PathId, ()>(log.objects, paths, fields);
        lemma_renamed_fit::<(PathId, FieldId), Json>(log.fields, paths, fields);
        lemma_renamed_fit::<(PathId, u64), Json>(log.members, paths, fields);
        lemma_renamed_fit::<((Role, PathId), String), Seq<(Seq<char>, Seq<char>)>>(
            log.items,
            paths,
            fields,
        );
        lemma_renamed_fit::<(((Role, PathId), String), FieldId), ()>(
            log.item_fields,
            paths,
            fields,
        );
        assert forall|i: int| 0 <= i < self.log().members.len() implies (
        #[trigger] self.log().members[i]).0.1 < u64::MAX by {
            assert(log.members[i].0.1 < u64::MAX);
        }
    }

    proof fn named(self, place: PathId) {
        assert(self.interns.path_names().contains(self.place_path(place)));
    }
}

/// Tables that hold what `given` holds, whatever it is, and `more`; none only if that does not fit.
pub open spec fn added_to(
    given: Tables<String, String>,
    more: Log<Seq<char>, Seq<char>>,
    r: Option<Tables<String, String>>,
) -> bool {
    match r {
        Some(t) => t.wf() && forall|log: Log<Seq<char>, Seq<char>>| #[trigger]
            given.holds(log) ==> t.holds(tables::joined_logs(log, more)),
        None => forall|log: Log<Seq<char>, Seq<char>>| #[trigger]
            given.holds(log) ==> !tables::facts_fit(tables::joined_logs(log, more)),
    }
}

impl StreamAcc {
    /// The interner has grown, and nothing has been recorded.
    proof fn lemma_grown(before: Self, after: Self)
        requires
            before.ready(),
            after.interns.wf(),
            after.interns.grown_from(before.interns),
            after.tables == before.tables,
            after.refs == before.refs,
            after.entries == before.entries,
        ensures
            after.ready(),
            after.log() == before.log(),
            recorder::keeps_places(before, after),
    {
        lemma_named_log_grows(
            before.entries@,
            before.interns.path_names(),
            before.interns.field_names(),
            after.interns.path_names(),
            after.interns.field_names(),
        );
        assert forall|p: PathId| #[trigger] before.knows(p) implies after.knows(p)
            && after.place_path(p) == before.place_path(p) by {
            let short = before.interns.path_names();
            let long = after.interns.path_names();
            assert(long.take(short.len() as int)[p.id as int] == long[p.id as int]);
        }
    }

    /// An accumulator without facts.
    pub fn new() -> (r: Self)
        ensures
            r.ready(),
            r.log() == tables::empty_log::<Seq<char>, Seq<char>>(),
            r.names() == names::no_names(),
    {
        let r = StreamAcc {
            interns: StreamInterns::new(),
            tables: Tables::new(),
            refs: Vec::new(),
            entries: Ghost(tables::empty_log()),
        };
        proof {
            let e = tables::empty_log::<Seq<char>, Seq<char>>();
            assert(index::text_pairs(r.refs@) =~= Seq::empty());
            assert(r.log().objects =~= e.objects);
            assert(r.log().fields =~= e.fields);
            assert(r.log().members =~= e.members);
            assert(r.log().items =~= e.items);
            assert(r.log().refs =~= e.refs);
            assert(r.log().item_fields =~= e.item_fields);
            assert(r.names().paths =~= Set::empty());
            assert(r.names().fields =~= Set::empty());
            assert(r.names().segments =~= Set::empty());
        }
        r
    }

    /// The number of a path.
    pub fn intern_path(&mut self, path: &str) -> (r: Result<PathId, StreamError>)
        requires
            old(self).ready(),
        ensures
            match r {
                Ok(p) => final(self).ready() && final(self).log() == old(self).log()
                    && final(self).knows(p) && final(self).place_path(p) == path@
                    && recorder::keeps_places(*old(self), *final(self)) && final(self).names()
                    == names::joined_names(old(self).names(), names::one_path(path@)),
                Err(e) => e == StreamError::TooManyNames && !names::fits(
                    names::joined_names(old(self).names(), names::one_path(path@)),
                ),
            },
    {
        let ghost before = *self;
        proof {
            before.interns.lemma_distinct();
            let paths = before.interns.path_names();
            interns::lemma_with_name(paths, path@);
            assert(paths.to_set().union(set![path@]) =~= paths.to_set().insert(path@));
            if interns::crowded(paths, path@) {
                interns::lemma_crowded(paths, path@);
            }
        }
        match self.interns.intern_path(path) {
            Some(p) => {
                proof {
                    Self::lemma_grown(before, *self);
                    let more = names::joined_names(before.names(), names::one_path(path@));
                    assert(self.names().fields =~= more.fields);
                    assert(self.names().segments =~= more.segments);
                }
                Ok(p)
            },
            None => Err(StreamError::TooManyNames),
        }
    }

    /// The number of a field name.
    fn field_id(&mut self, key: &String) -> (r: Result<FieldId, StreamError>)
        requires
            old(self).ready(),
        ensures
            match r {
                Ok(f) => final(self).ready() && final(self).log() == old(self).log()
                    && recorder::keeps_places(*old(self), *final(self)) && f.id
                    < final(self).interns.field_names().len()
                    && final(self).interns.field_names()[f.id as int] == key@
                    && final(self).names() == names::joined_names(
                    old(self).names(),
                    names::one_field(key@),
                ),
                Err(e) => e == StreamError::TooManyNames && !names::fits(
                    names::joined_names(old(self).names(), names::one_field(key@)),
                ),
            },
    {
        let ghost before = *self;
        proof {
            before.interns.lemma_distinct();
            let fields = before.interns.field_names();
            interns::lemma_with_name(fields, key@);
            assert(fields.to_set().union(set![key@]) =~= fields.to_set().insert(key@));
            if interns::crowded(fields, key@) {
                interns::lemma_crowded(fields, key@);
            }
        }
        match self.interns.intern_field(key.as_str()) {
            Some(f) => {
                proof {
                    Self::lemma_grown(before, *self);
                    let more = names::joined_names(before.names(), names::one_field(key@));
                    assert(self.names().paths =~= more.paths);
                    assert(self.names().segments =~= more.segments);
                }
                Ok(f)
            },
            None => Err(StreamError::TooManyNames),
        }
    }
}

impl Recorder for StreamAcc {
    fn path_text(&self, place: &PathId) -> (r: String) {
        self.interns.resolve_path(*place).to_string()
    }

    fn child(&mut self, place: &PathId, key: &String) -> (r: Result<PathId, StreamError>) {
        let ghost start = *self;
        let ghost at = self.place_path(*place);
        let ghost more = names::joined_names(start.names(), names::child_names(at, key@));
        let field = match self.field_id(key) {
            Ok(field) => field,
            Err(e) => {
                proof {
                    start.bounded();
                    let part = names::joined_names(start.names(), names::one_field(key@));
                    if names::fits(more) {
                        names::lemma_fits_within(part, more);
                    }
                }
                return Err(e);
            },
        };
        let ghost before = *self;
        proof {
            start.bounded();
            before.interns.lemma_distinct();
            assert(start.knows(*place));
            let paths = before.interns.path_names();
            let segments = before.interns.segment_names();
            let child = path::child(at, key@);
            let escaped = path::segment(key@);
            interns::lemma_with_name(paths, child);
            interns::lemma_with_name(segments, escaped);
            assert(more.paths =~= paths.to_set().insert(child));
            assert(more.segments =~= segments.to_set().insert(escaped));
            assert(more.fields =~= before.names().fields);
            if interns::crowded(paths, child) {
                interns::lemma_crowded(paths, child);
            }
            if interns::crowded(segments, escaped) {
                interns::lemma_crowded(segments, escaped);
            }
        }
        match self.interns.child_path(*place, field) {
            Some(p) => {
                proof {
                    Self::lemma_grown(before, *self);
                    assert(self.names() == more);
                }
                Ok(p)
            },
            None => Err(StreamError::TooManyNames),
        }
    }

    fn add_object_total(&mut self, place: &PathId) -> (r: Result<(), StreamError>) {
        let ghost log = self.entries@;
        let ghost before = self.log();
        let noted = self.tables.add_object_total(*place, Ghost(without_refs(log)));
        if !noted {
            proof {
                let pushed = log.objects.push((place.id as nat, ()));
                let paths = self.interns.path_names();
                let fields = self.interns.field_names();
                self.interns.lemma_distinct();
                lemma_renamed_fit::<PathId, ()>(pushed, paths, fields);
                assert(renamed::<PathId, ()>(pushed, paths, fields) =~= before.objects.push(
                    (self.place_path(*place), ()),
                ));
            }
            return Err(StreamError::TooManyFacts);
        }
        self.entries = Ghost(Log { objects: log.objects.push((place.id as nat, ())), ..log });
        proof {
            assert(self.log().objects =~= before.objects.push((self.place_path(*place), ())));
        }
        Ok(())
    }

    fn add_object_field_fact(&mut self, place: &PathId, key: &String, value: &JsonValue) -> (r:
        Result<(), StreamError>) {
        let ghost start = *self;
        let field = match self.field_id(key) {
            Ok(field) => field,
            Err(e) => {
                return Err(e);
            },
        };
        assert(start.knows(*place));
        let ghost log = self.entries@;
        let ghost before = self.log();
        let noted = self.tables.add_object_field_fact(*place, field, value, Ghost(without_refs(log)));
        if !noted {
            proof {
                let pushed = log.fields.push(((place.id as nat, field.id as nat), json::model(*value)));
                let paths = self.interns.path_names();
                let fields = self.interns.field_names();
                self.interns.lemma_distinct();
                lemma_renamed_fit::<(PathId, FieldId), Json>(pushed, paths, fields);
                assert(renamed::<(PathId, FieldId), Json>(pushed, paths, fields) =~= before.fields.push(
                    ((self.place_path(*place), key@), json::model(*value)),
                ));
            }
            return Err(StreamError::TooManyFacts);
        }
        self.entries = Ghost(
            Log {
                fields: log.fields.push(
                    ((place.id as nat, field.id as nat), json::model(*value)),
                ),
                ..log
            },
        );
        proof {
            assert(self.log().fields =~= before.fields.push(
                ((self.place_path(*place), key@), json::model(*value)),
            ));
        }
        Ok(())
    }

    fn add_array_member_fact(&mut self, place: &PathId, depth: u64, value: &JsonValue) -> (r: Result<
        (),
        StreamError,
    >) {
        let ghost log = self.entries@;
        let ghost before = self.log();
        let noted = self.tables.add_array_member_fact(*place, depth, value, Ghost(without_refs(log)));
        if !noted {
            proof {
                let pushed = log.members.push(((place.id as nat, depth as nat), json::model(*value)));
                let paths = self.interns.path_names();
                let fields = self.interns.field_names();
                self.interns.lemma_distinct();
                lemma_renamed_fit::<(PathId, u64), Json>(pushed, paths, fields);
                assert(renamed::<(PathId, u64), Json>(pushed, paths, fields) =~= before.members.push(
                    ((self.place_path(*place), depth as nat), json::model(*value)),
                ));
            }
            return Err(StreamError::TooManyFacts);
        }
        self.entries = Ghost(
            Log {
                members: log.members.push(
                    ((place.id as nat, depth as nat), json::model(*value)),
                ),
                ..log
            },
        );
        proof {
            assert(self.log().members =~= before.members.push(
                ((self.place_path(*place), depth as nat), json::model(*value)),
            ));
        }
        Ok(())
    }

    fn add_item_schema_count(
        &mut self,
        role: Role,
        place: &PathId,
        canonical: &String,
        schema: Vec<(String, String)>,
    ) -> (r: Result<(), StreamError>) {
        let ghost log = self.entries@;
        let ghost before = self.log();
        let noted = self.tables.add_item_schema_count(role, *place, canonical.clone(), schema, Ghost(without_refs(log)));
        if !noted {
            proof {
                let pushed = log.items.push((((tables::role_rank(role), place.id as nat), canonical@), json::schema_model(schema@)));
                let paths = self.interns.path_names();
                let fields = self.interns.field_names();
                self.interns.lemma_distinct();
                lemma_renamed_fit::<((Role, PathId), String), Seq<(Seq<char>, Seq<char>)>>(pushed, paths, fields);
                assert(renamed::<((Role, PathId), String), Seq<(Seq<char>, Seq<char>)>>(pushed, paths, fields) =~= before.items.push(
                    (((tables::role_rank(role), self.place_path(*place)), canonical@), json::schema_model(schema@)),
                ));
            }
            return Err(StreamError::TooManyFacts);
        }
        self.entries = Ghost(
            Log {
                items: log.items.push(
                    (
                        ((tables::role_rank(role), place.id as nat), canonical@),
                        json::schema_model(schema@),
                    ),
                ),
                ..log
            },
        );
        proof {
            assert(self.log().items =~= before.items.push(
                (
                    ((tables::role_rank(role), self.place_path(*place)), canonical@),
                    json::schema_model(schema@),
                ),
            ));
        }
        Ok(())
    }

    fn set_item_schema_index_ref(
        &mut self,
        role: Role,
        place: &PathId,
        index_path: Vec<usize>,
        canonical: &String,
    ) -> (r: Result<(), StreamError>) {
        let ghost log = self.entries@;
        let ghost before = self.log();
        let ghost index = text::models(index_path@);
        let ghost given = self.refs@;
        self.refs.push((((role, *place), index_path), canonical.clone()));
        self.entries = Ghost(
            Log {
                refs: log.refs.push(
                    (((tables::role_rank(role), place.id as nat), index), canonical@),
                ),
                ..log
            },
        );
        proof {
            assert(index::text_pairs(self.refs@) =~= index::text_pairs(given).push(
                (((tables::role_rank(role), place.id as nat), index), canonical@),
            ));
            assert(self.log().refs =~= before.refs.push(
                (((tables::role_rank(role), self.place_path(*place)), index), canonical@),
            ));
        }
        Ok(())
    }

    fn add_item_schema_field_count(
        &mut self,
        role: Role,
        place: &PathId,
        canonical: &String,
        key: &String,
    ) -> (r: Result<(), StreamError>) {
        let ghost start = *self;
        let field = match self.field_id(key) {
            Ok(field) => field,
            Err(e) => {
                return Err(e);
            },
        };
        assert(start.knows(*place));
        let ghost log = self.entries@;
        let ghost before = self.log();
        let noted = self.tables.add_item_schema_field_count(
            role,
            *place,
            canonical.clone(),
            field,
            Ghost(without_refs(log)),
        );
        if !noted {
            proof {
                let pushed = log.item_fields.push(((((tables::role_rank(role), place.id as nat), canonical@), field.id as nat), ()));
                let paths = self.interns.path_names();
                let fields = self.interns.field_names();
                self.interns.lemma_distinct();
                lemma_renamed_fit::<(((Role, PathId), String), FieldId), ()>(pushed, paths, fields);
                assert(renamed::<(((Role, PathId), String), FieldId), ()>(pushed, paths, fields) =~= before.item_fields.push(
                    ((((tables::role_rank(role), self.place_path(*place)), canonical@), key@), ()),
                ));
            }
            return Err(StreamError::TooManyFacts);
        }
        self.entries = Ghost(
            Log {
                item_fields: log.item_fields.push(
                    (
                        (
                            ((tables::role_rank(role), place.id as nat), canonical@),
                            field.id as nat,
                        ),
                        (),
                    ),
                ),
                ..log
            },
        );
        proof {
            assert(self.log().item_fields =~= before.item_fields.push(
                (
                    (
                        ((tables::role_rank(role), self.place_path(*place)), canonical@),
                        key@,
                    ),
                    (),
                ),
            ));
        }
        Ok(())
    }
}

impl StreamAcc {
    /// The tables by names.
    pub fn flush(self) -> (r: Tables<String, String>)
        requires
            self.ready(),
        ensures
            r.wf(),
            r.holds(self.log()),
    {
        let ghost paths = self.interns.path_names();
        let ghost fields = self.interns.field_names();
        let ghost log = self.entries@;
        proof {
            self.interns.lemma_distinct();
            lemma_known_keys::<PathId, ()>(log.objects, paths.len(), fields.len());
            lemma_known_keys::<(PathId, FieldId), Json>(log.fields, paths.len(), fields.len());
            lemma_known_keys::<(PathId, u64), Json>(log.members, paths.len(), fields.len());
            lemma_known_keys::<((Role, PathId), String), Seq<(Seq<char>, Seq<char>)>>(
                log.items,
                paths.len(),
                fields.len(),
            );
            lemma_known_keys::<((Role, PathId), Vec<usize>), Seq<char>>(
                log.refs,
                paths.len(),
                fields.len(),
            );
            lemma_known_keys::<(((Role, PathId), String), FieldId), ()>(
                log.item_fields,
                paths.len(),
                fields.len(),
            );
        }
        let interns = self.interns;
        let given = self.tables;
        let object_totals = rename_table(given.object_totals, &interns);
        let object_field_facts = rename_table(given.object_field_facts, &interns);
        let array_member_facts = rename_table(given.array_member_facts, &interns);
        let item_schema_counts = rename_table(given.item_schema_counts, &interns);
        let item_schema_index_refs = texts_from_pairs(rename_pairs(self.refs, &interns));
        let item_schema_field_counts = rename_table(given.item_schema_field_counts, &interns);
        proof {
            lemma_counts_renamed(given.object_totals, object_totals, log.objects, paths, fields);
            lemma_sums_renamed(
                given.object_field_facts,
                object_field_facts,
                log.fields,
                paths,
                fields,
            );
            lemma_sums_renamed(
                given.array_member_facts,
                array_member_facts,
                log.members,
                paths,
                fields,
            );
            lemma_schemas_renamed(
                given.item_schema_counts,
                item_schema_counts,
                log.items,
                paths,
                fields,
            );
            lemma_counts_renamed(
                given.item_schema_field_counts,
                item_schema_field_counts,
                log.item_fields,
                paths,
                fields,
            );
        }
        let r = Tables {
            object_totals,
            object_field_facts,
            array_member_facts,
            item_schema_counts,
            item_schema_index_refs,
            item_schema_field_counts,
        };
        proof {
            r.lemma_holds(named_log(log, paths, fields));
        }
        r
    }

    /// Adds the facts to those that `given` holds. None if a count would pass the largest
    /// `i64`.
    pub fn flush_into(self, given: Tables<String, String>) -> (r: Option<Tables<String, String>>)
        requires
            self.ready(),
            given.wf(),
        ensures
            added_to(given, self.log(), r),
    {
        let own = self.flush();
        join_tables(given, own)
    }
}

/// Records an object at `path_base` and every object in it.
pub fn record_streamed_object_occurrence_to_acc(
    acc: &mut StreamAcc,
    path_base: &str,
    object: &Vec<(String, JsonValue)>,
    role: Role,
    array_indexes: &Vec<usize>,
) -> (r: Result<(), StreamError>)
    requires
        old(acc).ready(),
    ensures
        ({
            let log = tables::joined_logs(
                old(acc).log(),
                recorder::log_of(
                    walk::walk_object(
                        path_base@,
                        recorder::by_paths(),
                        json::fields_model(object@),
                        role,
                        text::models(array_indexes@),
                    ),
                ),
            );
            let more = names::joined_names(
                old(acc).names(),
                names::names_of(
                    walk::walk_object(
                        path_base@,
                        recorder::by_paths(),
                        json::fields_model(object@),
                        role,
                        text::models(array_indexes@),
                    ),
                ),
            );
            match r {
                Ok(_) => final(acc).ready() && final(acc).log() == log && tables::facts_fit(log) && final(acc).names() == more && names::fits(more),
                Err(StreamError::TooManyFacts) => !tables::facts_fit(log),
                Err(StreamError::TooManyNames) => !names::fits(more),
            }
        }),
{
    let ghost start = *acc;
    let ghost occs = walk::walk_object(
        path_base@,
        recorder::by_paths(),
        json::fields_model(object@),
        role,
        text::models(array_indexes@),
    );
    let ghost need = names::names_of(occs);
    let ghost more = names::joined_names(start.names(), need);
    proof {
        start.bounded();
        names::law_names_are_no_more_than_facts(occs);
        names::lemma_root_within(occs);
        assert(names::within(
            names::joined_names(start.names(), names::one_path(path_base@)),
            more,
        ));
        if names::fits(more) {
            names::lemma_fits_within(
                names::joined_names(start.names(), names::one_path(path_base@)),
                more,
            );
        }
    }
    let place = match acc.intern_path(path_base) {
        Ok(place) => place,
        Err(e) => {
            return Err(e);
        },
    };
    let ghost before = *acc;
    let r = record_object(acc, &place, object, role, array_indexes);
    proof {
        let part = names::joined_names(before.names(), need);
        names::lemma_within_both(part, more);
        if r is Ok {
            acc.bounded();
            names::lemma_within_both(acc.names(), more);
        }
    }
    r
}

/// Facts by paths and field names themselves.
pub struct StreamTables {
    pub tables: Tables<String, String>,
    entries: Ghost<Log<Seq<char>, Seq<char>>>,
}

impl RecorderModel for StreamTables {
    type Place = String;

    closed spec fn log(self) -> Log<Seq<char>, Seq<char>> {
        self.entries@
    }

    closed spec fn ready(self) -> bool {
        &&& self.tables.holds(self.entries@)
        &&& tables::depths_fit(self.entries@.members)
    }

    open spec fn knows(self, place: String) -> bool {
        true
    }

    open spec fn place_path(self, place: String) -> Seq<char> {
        place@
    }

    open spec fn limited() -> bool {
        false
    }

    open spec fn names(self) -> Names {
        names::no_names()
    }

    proof fn bounded(self) {
        self.tables.lemma_counted(self.entries@);
    }

    proof fn named(self, place: String) {
    }
}

impl Recorder for StreamTables {
    fn path_text(&self, place: &String) -> (r: String) {
        place.clone()
    }

    fn child(&mut self, place: &String, key: &String) -> (r: Result<String, StreamError>) {
        Ok(path::child_path_base(place.as_str(), key.as_str()))
    }

    fn add_object_total(&mut self, place: &String) -> (r: Result<(), StreamError>) {
        let ghost log = self.entries@;
        if !self.tables.add_object_total(place.clone(), Ghost(log)) {
            return Err(StreamError::TooManyFacts);
        }
        self.entries = Ghost(Log { objects: log.objects.push((place@, ())), ..log });
        Ok(())
    }

    fn add_object_field_fact(&mut self, place: &String, key: &String, value: &JsonValue) -> (r:
        Result<(), StreamError>) {
        let ghost log = self.entries@;
        if !self.tables.add_object_field_fact(place.clone(), key.clone(), value, Ghost(log)) {
            return Err(StreamError::TooManyFacts);
        }
        self.entries = Ghost(
            Log { fields: log.fields.push(((place@, key@), json::model(*value))), ..log },
        );
        Ok(())
    }

    fn add_array_member_fact(&mut self, place: &String, depth: u64, value: &JsonValue) -> (r: Result<
        (),
        StreamError,
    >) {
        let ghost log = self.entries@;
        if !self.tables.add_array_member_fact(place.clone(), depth, value, Ghost(log)) {
            return Err(StreamError::TooManyFacts);
        }
        self.entries = Ghost(
            Log {
                members: log.members.push(((place@, depth as nat), json::model(*value))),
                ..log
            },
        );
        Ok(())
    }

    fn add_item_schema_count(
        &mut self,
        role: Role,
        place: &String,
        canonical: &String,
        schema: Vec<(String, String)>,
    ) -> (r: Result<(), StreamError>) {
        let ghost log = self.entries@;
        if !self.tables.add_item_schema_count(
            role,
            place.clone(),
            canonical.clone(),
            schema,
            Ghost(log),
        ) {
            return Err(StreamError::TooManyFacts);
        }
        self.entries = Ghost(
            Log {
                items: log.items.push(
                    (
                        ((tables::role_rank(role), place@), canonical@),
                        json::schema_model(schema@),
                    ),
                ),
                ..log
            },
        );
        Ok(())
    }

    fn set_item_schema_index_ref(
        &mut self,
        role: Role,
        place: &String,
        index_path: Vec<usize>,
        canonical: &String,
    ) -> (r: Result<(), StreamError>) {
        let ghost log = self.entries@;
        let ghost index = text::models(index_path@);
        self.tables.set_item_schema_index_ref(
            role,
            place.clone(),
            index_path,
            canonical.clone(),
            Ghost(log),
        );
        self.entries = Ghost(
            Log {
                refs: log.refs.push(
                    (((tables::role_rank(role), place@), index), canonical@),
                ),
                ..log
            },
        );
        Ok(())
    }

    fn add_item_schema_field_count(
        &mut self,
        role: Role,
        place: &String,
        canonical: &String,
        key: &String,
    ) -> (r: Result<(), StreamError>) {
        let ghost log = self.entries@;
        if !self.tables.add_item_schema_field_count(
            role,
            place.clone(),
            canonical.clone(),
            key.clone(),
            Ghost(log),
        ) {
            return Err(StreamError::TooManyFacts);
        }
        self.entries = Ghost(
            Log {
                item_fields: log.item_fields.push(
                    ((((tables::role_rank(role), place@), canonical@), key@), ()),
                ),
                ..log
            },
        );
        Ok(())
    }
}

impl StreamTables {
    /// Tables without facts.
    pub fn new() -> (r: Self)
        ensures
            r.ready(),
            r.log() == tables::empty_log::<Seq<char>, Seq<char>>(),
    {
        StreamTables { tables: Tables::new(), entries: Ghost(tables::empty_log()) }
    }

    /// The tables.
    pub fn into_tables(self) -> (r: Tables<String, String>)
        requires
            self.ready(),
        ensures
            r.wf(),
            r.holds(self.log()),
    {
        proof {
            self.tables.lemma_holds(self.entries@);
        }
        self.tables
    }
}

/// Records an object at `path_base` and every object in it.
pub fn record_streamed_object_occurrence(
    out: &mut StreamTables,
    path_base: &str,
    object: &Vec<(String, JsonValue)>,
    role: Role,
    array_indexes: &Vec<usize>,
) -> (r: Result<(), StreamError>)
    requires
        old(out).ready(),
    ensures
        ({
            let log = tables::joined_logs(
                old(out).log(),
                recorder::log_of(
                    walk::walk_object(
                        path_base@,
                        recorder::by_paths(),
                        json::fields_model(object@),
                        role,
                        text::models(array_indexes@),
                    ),
                ),
            );
            match r {
                Ok(_) => final(out).ready() && final(out).log() == log && tables::facts_fit(log),
                Err(e) => e == StreamError::TooManyFacts && !tables::facts_fit(log),
            }
        }),
{
    let place = path_base.to_string();
    let r = record_object(out, &place, object, role, array_indexes);
    proof {
        if r is Ok {
            out.bounded();
        }
    }
    r
}

} // verus!
