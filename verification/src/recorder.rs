//! Recording the facts of streamed objects.

use crate::json;
use crate::json::{canonical_json, Json, JsonValue};
use crate::label;
use crate::label::schema_for_single_object;
use crate::names;
use crate::names::Names;
use crate::path;
use crate::tables;
use crate::tables::Log;
use crate::text;
use crate::walk;
use crate::walk::{copy_indexes, Occ, Role};
use vstd::prelude::*;

verus! {

/// Places as paths.
pub open spec fn by_paths() -> spec_fn(Seq<char>, Seq<char>) -> Seq<char> {
    |at: Seq<char>, key: Seq<char>| path::child(at, key)
}

/// The members of an array at `base` and of the arrays in it, with their depths.
pub open spec fn members_log(base: Seq<char>, items: Seq<Json>, depth: nat) -> Seq<
    ((Seq<char>, nat), Json),
>
    decreases items,
{
    if items.len() == 0 {
        Seq::empty()
    } else {
        members_log(base, items.drop_last(), depth) + seq![((base, depth), items.last())]
            + match items.last() {
            Json::Array(nested) => members_log(base, nested, depth + 1),
            _ => Seq::empty(),
        }
    }
}

/// The members of the arrays in the fields of an object.
pub open spec fn fields_members(at: Seq<char>, fields: Seq<(Seq<char>, Json)>) -> Seq<
    ((Seq<char>, nat), Json),
>
    decreases fields.len(),
{
    if fields.len() == 0 {
        Seq::empty()
    } else {
        fields_members(at, fields.drop_last()) + match fields.last().1 {
            Json::Array(items) => members_log(path::child(at, fields.last().0), items, 0),
            _ => Seq::empty(),
        }
    }
}

pub open spec fn fields_values(at: Seq<char>, fields: Seq<(Seq<char>, Json)>) -> Seq<
    ((Seq<char>, Seq<char>), Json),
> {
    Seq::new(fields.len(), |i: int| ((at, fields[i].0), fields[i].1))
}

/// The schema of an item at a path.
pub open spec fn item_schema(at: Seq<char>, fields: Seq<(Seq<char>, Json)>) -> Seq<
    (Seq<char>, Seq<char>),
> {
    label::schema_of(at + "/"@, seq![fields])
}

pub open spec fn item_names(
    key: ((nat, Seq<char>), Seq<char>),
    fields: Seq<(Seq<char>, Json)>,
) -> Seq<((((nat, Seq<char>), Seq<char>), Seq<char>), ())> {
    Seq::new(fields.len(), |i: int| ((key, fields[i].0), ()))
}

/// What is recorded of one occurrence. Objects in fields are recorded by the kinds of their
/// values, items by their own schemas.
pub open spec fn own_log(o: Occ<Seq<char>>) -> Log<Seq<char>, Seq<char>> {
    if o.role == Role::Object {
        Log {
            objects: seq![(o.at, ())],
            fields: fields_values(o.at, o.fields),
            members: fields_members(o.at, o.fields),
            ..tables::empty_log()
        }
    } else {
        let schema = item_schema(o.at, o.fields);
        let place = (tables::role_rank(o.role), o.at);
        let canon = json::compact_json(schema);
        Log {
            items: seq![((place, canon), schema)],
            refs: seq![((place, o.indexes), canon)],
            item_fields: item_names((place, canon), o.fields),
            ..tables::empty_log()
        }
    }
}

/// What is recorded of all occurrences.
pub open spec fn log_of(occs: Seq<Occ<Seq<char>>>) -> Log<Seq<char>, Seq<char>>
    decreases occs.len(),
{
    if occs.len() == 0 {
        tables::empty_log()
    } else {
        tables::joined_logs(log_of(occs.drop_last()), own_log(occs.last()))
    }
}

pub proof fn lemma_join_assoc<P, F>(a: Log<P, F>, b: Log<P, F>, c: Log<P, F>)
    ensures
        tables::joined_logs(tables::joined_logs(a, b), c) == tables::joined_logs(
            a,
            tables::joined_logs(b, c),
        ),
{
    let l = tables::joined_logs(tables::joined_logs(a, b), c);
    let r = tables::joined_logs(a, tables::joined_logs(b, c));
    assert(l.objects =~= r.objects);
    assert(l.fields =~= r.fields);
    assert(l.members =~= r.members);
    assert(l.items =~= r.items);
    assert(l.refs =~= r.refs);
    assert(l.item_fields =~= r.item_fields);
}

pub proof fn lemma_join_empty<P, F>(a: Log<P, F>)
    ensures
        tables::joined_logs(a, tables::empty_log()) == a,
        tables::joined_logs(tables::empty_log(), a) == a,
{
    let e = tables::empty_log::<P, F>();
    let l = tables::joined_logs(a, e);
    let r = tables::joined_logs(e, a);
    assert(l.objects =~= a.objects && r.objects =~= a.objects);
    assert(l.fields =~= a.fields && r.fields =~= a.fields);
    assert(l.members =~= a.members && r.members =~= a.members);
    assert(l.items =~= a.items && r.items =~= a.items);
    assert(l.refs =~= a.refs && r.refs =~= a.refs);
    assert(l.item_fields =~= a.item_fields && r.item_fields =~= a.item_fields);
}

pub proof fn lemma_log_of_concat(a: Seq<Occ<Seq<char>>>, b: Seq<Occ<Seq<char>>>)
    ensures
        log_of(a + b) == tables::joined_logs(log_of(a), log_of(b)),
    decreases b.len(),
{
    if b.len() == 0 {
        assert(a + b =~= a);
        lemma_join_empty(log_of(a));
    } else {
        lemma_log_of_concat(a, b.drop_last());
        assert((a + b).drop_last() =~= a + b.drop_last());
        lemma_join_assoc(log_of(a), log_of(b.drop_last()), own_log(b.last()));
    }
}

pub proof fn lemma_log_of_one(o: Occ<Seq<char>>)
    ensures
        log_of(seq![o]) == own_log(o),
{
    assert(seq![o].drop_last() =~= Seq::empty());
    reveal_with_fuel(log_of, 2);
    lemma_join_empty(own_log(o));
}

/// Why an object could not be recorded: a count would pass the largest `i64` (or a depth the
/// largest `u64`), or the names would pass what can be numbered.
#[derive(Clone, Copy, PartialEq, Eq, Structural, Debug)]
pub enum StreamError {
    TooManyFacts,
    TooManyNames,
}

impl StreamError {
    pub fn message(self) -> (r: &'static str)
        ensures
            r@ == match self {
                StreamError::TooManyFacts => "too many facts to count"@,
                StreamError::TooManyNames => "too many paths and field names to number"@,
            },
    {
        match self {
            StreamError::TooManyFacts => "too many facts to count",
            StreamError::TooManyNames => "too many paths and field names to number",
        }
    }
}

/// What stands for paths, and what has been recorded.
pub trait RecorderModel: Sized {
    /// What stands for a path.
    type Place;

    /// What has been recorded.
    spec fn log(self) -> Log<Seq<char>, Seq<char>>;

    spec fn ready(self) -> bool;

    spec fn knows(self, place: Self::Place) -> bool;

    spec fn place_path(self, place: Self::Place) -> Seq<char>;

    /// Whether names get numbers, which can run out.
    spec fn limited() -> bool;

    /// The names that have numbers.
    spec fn names(self) -> Names;

    proof fn bounded(self)
        requires
            self.ready(),
        ensures
            tables::facts_fit(self.log()),
            Self::limited() ==> names::fits(self.names()) && names::finite(self.names()),
    ;

    proof fn named(self, place: Self::Place)
        requires
            self.ready(),
            self.knows(place),
        ensures
            Self::limited() ==> self.names().paths.contains(self.place_path(place)),
    ;
}

/// Names of `more` have got numbers, and no others.
pub open spec fn grew<R: RecorderModel>(before: R, after: R, more: Names) -> bool {
    R::limited() ==> names::within(before.names(), after.names()) && names::within(
        after.names(),
        names::joined_names(before.names(), more),
    )
}

/// All names of `more` have numbers.
pub open spec fn numbers<R: RecorderModel>(after: R, more: Names) -> bool {
    R::limited() ==> names::within(more, after.names())
}

/// There are not enough numbers for the names of `more`.
pub open spec fn full<R: RecorderModel>(before: R, more: Names) -> bool {
    R::limited() && !names::fits(names::joined_names(before.names(), more))
}

/// What one step of recording did.
pub open spec fn recorded<R: RecorderModel>(
    before: R,
    after: R,
    r: Result<(), StreamError>,
    log: Log<Seq<char>, Seq<char>>,
    more: Names,
) -> bool {
    match r {
        Ok(_) => after.ready() && after.log() == log && keeps_places(before, after) && grew(
            before,
            after,
            more,
        ),
        Err(StreamError::TooManyFacts) => !tables::facts_fit(log),
        Err(StreamError::TooManyNames) => full(before, more),
    }
}

/// A part that does not fit keeps the whole from fitting.
proof fn lemma_part(part: Log<Seq<char>, Seq<char>>, whole: Log<Seq<char>, Seq<char>>)
    requires
        tables::log_starts(part, whole),
    ensures
        !tables::facts_fit(part) ==> !tables::facts_fit(whole),
{
    if tables::facts_fit(whole) {
        tables::lemma_starts_fit(part, whole);
    }
}

/// A step that needs names of `more` only, after others that did.
proof fn lemma_step<R: RecorderModel>(start: R, before: R, after: R, own: Names, more: Names)
    requires
        start.ready(),
        grew(start, before, more),
        names::within(own, more),
        names::finite(more),
    ensures
        full(before, own) ==> full(start, more),
        grew(before, after, own) ==> grew(start, after, more),
{
    start.bounded();
    let whole = names::joined_names(start.names(), more);
    let part = names::joined_names(before.names(), own);
    if R::limited() {
        assert(names::within(part, whole));
        if names::fits(whole) {
            names::lemma_fits_within(part, whole);
        }
    }
}

/// Places stay what they are.
pub open spec fn keeps_places<R: RecorderModel>(before: R, after: R) -> bool {
    forall|p: R::Place| #[trigger]
        before.knows(p) ==> after.knows(p) && after.place_path(p) == before.place_path(p)
}

/// Something that facts can be recorded in.
pub trait Recorder: RecorderModel {
    fn path_text(&self, place: &Self::Place) -> (r: String)
        requires
            self.ready(),
            self.knows(*place),
        ensures
            r@ == self.place_path(*place),
    ;

    fn child(&mut self, place: &Self::Place, key: &String) -> (r: Result<Self::Place, StreamError>)
        requires
            old(self).ready(),
            old(self).knows(*place),
        ensures
            match r {
                Ok(p) => final(self).ready() && final(self).log() == old(self).log()
                    && keeps_places(*old(self), *final(self)) && final(self).knows(p)
                    && final(self).place_path(p) == path::child(
                    old(self).place_path(*place),
                    key@,
                ) && grew(
                    *old(self),
                    *final(self),
                    names::child_names(old(self).place_path(*place), key@),
                ) && numbers(
                    *final(self),
                    names::child_names(old(self).place_path(*place), key@),
                ),
                Err(e) => e == StreamError::TooManyNames && full(
                    *old(self),
                    names::child_names(old(self).place_path(*place), key@),
                ),
            },
    ;

    fn add_object_total(&mut self, place: &Self::Place) -> (r: Result<(), StreamError>)
        requires
            old(self).ready(),
            old(self).knows(*place),
        ensures
            recorded(
                *old(self),
                *final(self),
                r,
                (Log {
                    objects: old(self).log().objects.push((old(self).place_path(*place), ())),
                    ..old(self).log()
                }),
                names::no_names(),
            ),
    ;

    fn add_object_field_fact(&mut self, place: &Self::Place, key: &String, value: &JsonValue) -> (r:
        Result<(), StreamError>)
        requires
            old(self).ready(),
            old(self).knows(*place),
        ensures
            recorded(
                *old(self),
                *final(self),
                r,
                (Log {
                    fields: old(self).log().fields.push(
                        ((old(self).place_path(*place), key@), json::model(*value)),
                    ),
                    ..old(self).log()
                }),
                names::one_field(key@),
            ),
            r is Ok ==> numbers(*final(self), names::one_field(key@)),
    ;

    fn add_array_member_fact(&mut self, place: &Self::Place, depth: u64, value: &JsonValue) -> (r:
        Result<(), StreamError>)
        requires
            old(self).ready(),
            old(self).knows(*place),
            depth < u64::MAX,
        ensures
            recorded(
                *old(self),
                *final(self),
                r,
                (Log {
                    members: old(self).log().members.push(
                        ((old(self).place_path(*place), depth as nat), json::model(*value)),
                    ),
                    ..old(self).log()
                }),
                names::no_names(),
            ),
    ;

    fn add_item_schema_count(
        &mut self,
        role: Role,
        place: &Self::Place,
        canonical: &String,
        schema: Vec<(String, String)>,
    ) -> (r: Result<(), StreamError>)
        requires
            old(self).ready(),
            old(self).knows(*place),
        ensures
            recorded(
                *old(self),
                *final(self),
                r,
                (Log {
                    items: old(self).log().items.push(
                        (
                            (
                                (tables::role_rank(role), old(self).place_path(*place)),
                                canonical@,
                            ),
                            json::schema_model(schema@),
                        ),
                    ),
                    ..old(self).log()
                }),
                names::no_names(),
            ),
    ;

    fn set_item_schema_index_ref(
        &mut self,
        role: Role,
        place: &Self::Place,
        index_path: Vec<usize>,
        canonical: &String,
    ) -> (r: Result<(), StreamError>)
        requires
            old(self).ready(),
            old(self).knows(*place),
        ensures
            recorded(
                *old(self),
                *final(self),
                r,
                (Log {
                    refs: old(self).log().refs.push(
                        (
                            (
                                (tables::role_rank(role), old(self).place_path(*place)),
                                text::models(index_path@),
                            ),
                            canonical@,
                        ),
                    ),
                    ..old(self).log()
                }),
                names::no_names(),
            ),
    ;

    fn add_item_schema_field_count(
        &mut self,
        role: Role,
        place: &Self::Place,
        canonical: &String,
        key: &String,
    ) -> (r: Result<(), StreamError>)
        requires
            old(self).ready(),
            old(self).knows(*place),
        ensures
            recorded(
                *old(self),
                *final(self),
                r,
                (Log {
                    item_fields: old(self).log().item_fields.push(
                        (
                            (
                                (
                                    (tables::role_rank(role), old(self).place_path(*place)),
                                    canonical@,
                                ),
                                key@,
                            ),
                            (),
                        ),
                    ),
                    ..old(self).log()
                }),
                names::one_field(key@),
            ),
            r is Ok ==> numbers(*final(self), names::one_field(key@)),
    ;
}

/// A log with more members.
pub open spec fn with_members<P, F>(log: Log<P, F>, more: Seq<((P, nat), Json)>) -> Log<P, F> {
    Log { members: log.members + more, ..log }
}

proof fn lemma_members_grow(base: Seq<char>, items: Seq<Json>, depth: nat, n: int)
    requires
        0 <= n <= items.len(),
    ensures
        members_log(base, items.take(n), depth).is_prefix_of(members_log(base, items, depth)),
    decreases items.len() - n,
{
    if n == items.len() {
        assert(items.take(n) =~= items);
    } else {
        lemma_members_grow(base, items, depth, n + 1);
        assert(items.take(n + 1).drop_last() =~= items.take(n));
    }
}

/// The first member of an array comes first.
proof fn lemma_members_first(base: Seq<char>, items: Seq<Json>, depth: nat)
    requires
        items.len() > 0,
    ensures
        members_log(base, items, depth).len() > 0,
        members_log(base, items, depth)[0].0 == (base, depth),
    decreases items.len(),
{
    if items.len() > 1 {
        lemma_members_first(base, items.drop_last(), depth);
    } else {
        assert(members_log(base, items.drop_last(), depth) =~= Seq::empty());
    }
    let head = members_log(base, items.drop_last(), depth) + seq![((base, depth), items.last())];
    assert(head[0].0 == (base, depth));
    assert(members_log(base, items, depth)[0] == head[0]);
}

/// Records the members of an array at `place` and of the arrays in it.
fn record_members<R: Recorder>(
    out: &mut R,
    place: &R::Place,
    depth: u64,
    members: &Vec<JsonValue>,
) -> (r: Result<(), StreamError>)
    requires
        old(out).ready(),
        old(out).knows(*place),
        depth < u64::MAX,
    ensures
        recorded(
            *old(out),
            *final(out),
            r,
            with_members(
                old(out).log(),
                members_log(
                    old(out).place_path(*place),
                    json::items_model(members@),
                    depth as nat,
                ),
            ),
            names::no_names(),
        ),
    decreases members,
{
    let ghost start = *out;
    let ghost base = out.place_path(*place);
    let ghost all = json::items_model(members@);
    let ghost target = members_log(base, all, depth as nat);
    let ghost whole = with_members(start.log(), target);
    let mut i: usize = 0;
    proof {
        assert(all.take(0) =~= Seq::empty());
        assert(start.log().members + members_log(base, all.take(0), depth as nat)
            =~= start.log().members);
    }
    while i < members.len()
        invariant
            all == json::items_model(members@),
            i <= members@.len(),
            start == *old(out),
            start.ready(),
            start.knows(*place),
            grew(start, *out, names::no_names()),
            depth < u64::MAX,
            whole == with_members(start.log(), target),
            base == start.place_path(*place),
            out.ready(),
            keeps_places(start, *out),
            out.log() == with_members(
                start.log(),
                members_log(base, all.take(i as int), depth as nat),
            ),
            target == members_log(base, all, depth as nat),
        decreases members@.len() - i,
    {
        let ghost before = *out;
        let ghost m = json::model(members@[i as int]);
        let ghost next = members_log(base, all.take(i + 1), depth as nat);
        proof {
            assert(all.take(i + 1).drop_last() =~= all.take(i as int));
            assert(all.take(i + 1).last() == m);
            assert(before.knows(*place));
            lemma_members_grow(base, all, depth as nat, i + 1);
        }
        let noted = out.add_array_member_fact(place, depth, &members[i]);
        proof {
            let entry = seq![((base, depth as nat), m)];
            let done = members_log(base, all.take(i as int), depth as nat);
            assert((done + entry).is_prefix_of(next));
            assert((done + entry).is_prefix_of(target));
            assert(before.log().members + entry =~= start.log().members + (done + entry));
            lemma_part(with_members(before.log(), entry), whole);
            assert(before.log().members.push(((base, depth as nat), m)) =~= before.log().members
                + seq![((base, depth as nat), m)]);
            lemma_step(start, before, *out, names::no_names(), names::no_names());
        }
        match noted {
            Ok(_) => {},
            Err(e) => {
                return Err(e);
            },
        }
        let ghost middle = *out;
        assert(middle.knows(*place));
        if let JsonValue::Array(nested) = &members[i] {
            let ghost inside = members_log(base, json::items_model(nested@), depth as nat + 1);
            proof {
                json::lemma_model_array(*nested);
                assert(middle.log().members + inside =~= start.log().members + next);
            }
            if depth + 1 == u64::MAX {
                if nested.len() == 0 {
                    assert(inside =~= Seq::empty());
                    assert(out.log().members =~= start.log().members + next);
                    i = i + 1;
                    continue;
                }
                proof {
                    let deeper = json::items_model(nested@);
                    lemma_members_first(base, deeper, depth as nat + 1);
                    let n = middle.log().members.len();
                    assert((middle.log().members + inside)[n as int] == inside[0]);
                    assert(whole.members[n as int] == inside[0]);
                    assert(!tables::depths_fit(whole.members));
                }
                return Err(StreamError::TooManyFacts);
            }
            let noted = record_members(out, place, depth + 1, nested);
            proof {
                lemma_part(with_members(middle.log(), inside), whole);
                lemma_step(start, middle, *out, names::no_names(), names::no_names());
            }
            match noted {
                Ok(_) => {},
                Err(e) => {
                    return Err(e);
                },
            }
        }
        proof {
            assert(out.log().members =~= start.log().members + next);
        }
        i = i + 1;
    }
    assert(all.take(all.len() as int) =~= all);
    Ok(())
}

proof fn lemma_fields_members_grow(at: Seq<char>, fields: Seq<(Seq<char>, Json)>, n: int)
    requires
        0 <= n <= fields.len(),
    ensures
        fields_members(at, fields.take(n)).is_prefix_of(fields_members(at, fields)),
    decreases fields.len() - n,
{
    if n == fields.len() {
        assert(fields.take(n) =~= fields);
    } else {
        lemma_fields_members_grow(at, fields, n + 1);
        assert(fields.take(n + 1).drop_last() =~= fields.take(n));
    }
}

/// The names that an object needs, but for its path.
pub open spec fn facts_names(at: Seq<char>, fields: Seq<(Seq<char>, Json)>) -> Names {
    names::joined_names(names::keys_names(fields), names::nested_names(at, fields))
}

/// Records an object that stands in a field, without the objects in it.
fn record_object_facts<R: Recorder>(
    out: &mut R,
    place: &R::Place,
    object: &Vec<(String, JsonValue)>,
) -> (r: Result<(), StreamError>)
    requires
        old(out).ready(),
        old(out).knows(*place),
    ensures
        recorded(
            *old(out),
            *final(out),
            r,
            (Log {
                objects: old(out).log().objects.push((old(out).place_path(*place), ())),
                fields: old(out).log().fields + fields_values(
                    old(out).place_path(*place),
                    json::fields_model(object@),
                ),
                members: old(out).log().members + fields_members(
                    old(out).place_path(*place),
                    json::fields_model(object@),
                ),
                ..old(out).log()
            }),
            facts_names(old(out).place_path(*place), json::fields_model(object@)),
        ),
        r is Ok ==> numbers(*final(out), names::keys_names(json::fields_model(object@))),
{
    let ghost start = *out;
    let ghost at = out.place_path(*place);
    let ghost fields = json::fields_model(object@);
    let ghost values = fields_values(at, fields);
    let ghost whole = facts_names(at, fields);
    let ghost target = Log {
        objects: start.log().objects.push((at, ())),
        fields: start.log().fields + values,
        members: start.log().members + fields_members(at, fields),
        ..start.log()
    };
    let noted = out.add_object_total(place);
    proof {
        names::lemma_finite_names(at, fields);
        lemma_step(start, start, *out, names::no_names(), whole);
        lemma_part(
            Log { objects: start.log().objects.push((at, ())), ..start.log() },
            target,
        );
    }
    match noted {
        Ok(_) => {},
        Err(e) => {
            return Err(e);
        },
    }
    let mut i: usize = 0;
    proof {
        assert(fields.take(0) =~= Seq::empty());
        assert(out.log().fields + values.take(0) =~= out.log().fields);
        assert(out.log().members + fields_members(at, fields.take(0)) =~= out.log().members);
    }
    while i < object.len()
        invariant
            fields == json::fields_model(object@),
            values == fields_values(at, fields),
            whole == facts_names(at, fields),
            names::finite(whole),
            target == (Log {
                objects: start.log().objects.push((at, ())),
                fields: start.log().fields + values,
                members: start.log().members + fields_members(at, fields),
                ..start.log()
            }),
            i <= object@.len(),
            start == *old(out),
            start.ready(),
            grew(start, *out, whole),
            numbers(*out, names::keys_names(fields.take(i as int))),
            start.knows(*place),
            at == start.place_path(*place),
            out.ready(),
            keeps_places(start, *out),
            out.log() == (Log {
                objects: start.log().objects.push((at, ())),
                fields: start.log().fields + values.take(i as int),
                members: start.log().members + fields_members(at, fields.take(i as int)),
                ..start.log()
            }),
        decreases object@.len() - i,
    {
        let ghost before = *out;
        let ghost key = fields[i as int].0;
        let ghost more = fields_members(at, fields.take(i + 1));
        proof {
            assert(before.knows(*place));
            assert(fields.take(i + 1).drop_last() =~= fields.take(i as int));
            assert(fields.take(i + 1).last() == fields[i as int]);
            assert(values.take(i + 1) =~= values.take(i as int).push(values[i as int]));
            lemma_fields_members_grow(at, fields, i as int);
            lemma_fields_members_grow(at, fields, i + 1);
            names::lemma_fields_within(at, fields, i as int);
        }
        let noted = out.add_object_field_fact(place, &object[i].0, &object[i].1);
        proof {
            lemma_part(
                Log {
                    fields: before.log().fields.push(((at, key), fields[i as int].1)),
                    ..before.log()
                },
                target,
            );
            lemma_step(start, before, *out, names::one_field(key), whole);
        }
        match noted {
            Ok(_) => {},
            Err(e) => {
                return Err(e);
            },
        }
        let ghost middle = *out;
        assert(middle.log().fields =~= start.log().fields + values.take(i + 1));
        if let JsonValue::Array(items) = &object[i].1 {
            proof {
                assert(middle.knows(*place));
                json::lemma_model_array(*items);
            }
            let entered = out.child(place, &object[i].0);
            proof {
                lemma_step(start, middle, *out, names::child_names(at, key), whole);
            }
            let child = match entered {
                Ok(child) => child,
                Err(e) => {
                    return Err(e);
                },
            };
            let ghost inner = *out;
            let ghost inside = members_log(
                path::child(at, key),
                json::items_model(items@),
                0,
            );
            assert(out.log().members + inside =~= start.log().members + more);
            let noted = record_members(out, &child, 0, items);
            proof {
                lemma_part(with_members(inner.log(), inside), target);
                lemma_step(start, inner, *out, names::no_names(), whole);
            }
            match noted {
                Ok(_) => {},
                Err(e) => {
                    return Err(e);
                },
            }
        }
        assert(out.log().members =~= start.log().members + more);
        i = i + 1;
    }
    proof {
        assert(fields.take(fields.len() as int) =~= fields);
        assert(values.take(values.len() as int) =~= values);
    }
    Ok(())
}

/// Records an item, without the objects in it.
fn record_item_facts<R: Recorder>(
    out: &mut R,
    place: &R::Place,
    object: &Vec<(String, JsonValue)>,
    role: Role,
    array_indexes: &Vec<usize>,
) -> (r: Result<(), StreamError>)
    requires
        old(out).ready(),
        old(out).knows(*place),
        role != Role::Object,
    ensures
        recorded(
            *old(out),
            *final(out),
            r,
            tables::joined_logs(
                old(out).log(),
                own_log(
                    Occ {
                        at: old(out).place_path(*place),
                        fields: json::fields_model(object@),
                        role,
                        indexes: text::models(array_indexes@),
                    },
                ),
            ),
            facts_names(old(out).place_path(*place), json::fields_model(object@)),
        ),
        r is Ok ==> numbers(*final(out), names::keys_names(json::fields_model(object@))),
{
    let ghost start = *out;
    let ghost at = out.place_path(*place);
    let ghost fields = json::fields_model(object@);
    let ghost own = own_log(
        Occ { at, fields, role, indexes: text::models(array_indexes@) },
    );
    let path_base = out.path_text(place);
    let schema = schema_for_single_object(path_base.as_str(), object);
    proof {
        label::lemma_schema_names(at + "/"@, seq![fields]);
    }
    let canonical = canonical_json(&schema);
    let ghost key = ((tables::role_rank(role), at), canonical@);
    let ghost rows = item_names(key, fields);
    proof {
        lemma_item_log(start.log(), own);
    }
    let ghost all_names = facts_names(at, fields);
    let noted = out.add_item_schema_count(role, place, &canonical, schema);
    proof {
        names::lemma_finite_names(at, fields);
        lemma_step(start, start, *out, names::no_names(), all_names);
        lemma_part(
            Log { items: start.log().items.push(own.items[0]), ..start.log() },
            tables::joined_logs(start.log(), own),
        );
    }
    match noted {
        Ok(_) => {},
        Err(e) => {
            return Err(e);
        },
    }
    let ghost second = *out;
    assert(second.knows(*place));
    let noted = out.set_item_schema_index_ref(
        role,
        place,
        copy_indexes(array_indexes),
        &canonical,
    );
    proof {
        lemma_step(start, second, *out, names::no_names(), all_names);
        lemma_part(
            Log { refs: second.log().refs.push(own.refs[0]), ..second.log() },
            tables::joined_logs(start.log(), own),
        );
    }
    match noted {
        Ok(_) => {},
        Err(e) => {
            return Err(e);
        },
    }
    let mut i: usize = 0;
    assert(out.log().item_fields + rows.take(0) =~= out.log().item_fields);
    assert(fields.take(0) =~= Seq::empty());
    while i < object.len()
        invariant
            fields == json::fields_model(object@),
            rows == item_names(key, fields),
            key == ((tables::role_rank(role), at), canonical@),
            own == own_log(Occ { at, fields, role, indexes: text::models(array_indexes@) }),
            own.item_fields == rows,
            own.items.len() == 1,
            own.refs.len() == 1,
            tables::joined_logs(start.log(), own) == (Log {
                items: start.log().items.push(own.items[0]),
                refs: start.log().refs.push(own.refs[0]),
                item_fields: start.log().item_fields + rows,
                ..start.log()
            }),
            all_names == facts_names(at, fields),
            names::finite(all_names),
            i <= object@.len(),
            start == *old(out),
            start.ready(),
            grew(start, *out, all_names),
            numbers(*out, names::keys_names(fields.take(i as int))),
            start.knows(*place),
            at == start.place_path(*place),
            out.ready(),
            keeps_places(start, *out),
            out.log() == (Log {
                items: start.log().items.push(own.items[0]),
                refs: start.log().refs.push(own.refs[0]),
                item_fields: start.log().item_fields + rows.take(i as int),
                ..start.log()
            }),
        decreases object@.len() - i,
    {
        let ghost before = *out;
        proof {
            assert(before.knows(*place));
            assert(rows.take(i + 1) =~= rows.take(i as int).push(rows[i as int]));
            assert(fields.take(i + 1).drop_last() =~= fields.take(i as int));
            assert(fields.take(i + 1).last() == fields[i as int]);
            names::lemma_fields_within(at, fields, i as int);
        }
        let noted = out.add_item_schema_field_count(role, place, &canonical, &object[i].0);
        proof {
            lemma_part(
                Log {
                    item_fields: before.log().item_fields.push(rows[i as int]),
                    ..before.log()
                },
                tables::joined_logs(start.log(), own),
            );
            lemma_step(start, before, *out, names::one_field(fields[i as int].0), all_names);
        }
        match noted {
            Ok(_) => {},
            Err(e) => {
                return Err(e);
            },
        }
        assert(out.log().item_fields =~= start.log().item_fields + rows.take(i + 1));
        i = i + 1;
    }
    assert(rows.take(rows.len() as int) =~= rows);
    assert(fields.take(fields.len() as int) =~= fields);
    Ok(())
}

proof fn lemma_item_log(a: Log<Seq<char>, Seq<char>>, own: Log<Seq<char>, Seq<char>>)
    requires
        own.objects.len() == 0,
        own.fields.len() == 0,
        own.members.len() == 0,
        own.items.len() == 1,
        own.refs.len() == 1,
    ensures
        tables::joined_logs(a, own) == (Log {
            items: a.items.push(own.items[0]),
            refs: a.refs.push(own.refs[0]),
            item_fields: a.item_fields + own.item_fields,
            ..a
        }),
{
    let l = tables::joined_logs(a, own);
    assert(l.objects =~= a.objects);
    assert(l.fields =~= a.fields);
    assert(l.members =~= a.members);
    assert(l.items =~= a.items.push(own.items[0]));
    assert(l.refs =~= a.refs.push(own.refs[0]));
}

/// The walk of the fields up to some place is how the walk of all starts.
proof fn lemma_fields_start(
    at: Seq<char>,
    fields: Seq<(Seq<char>, Json)>,
    indexes: Seq<nat>,
    n: int,
)
    requires
        0 <= n <= fields.len(),
    ensures
        walk::walk_fields(at, by_paths(), fields.take(n), indexes).is_prefix_of(
            walk::walk_fields(at, by_paths(), fields, indexes),
        ),
    decreases fields.len() - n,
{
    if n == fields.len() {
        assert(fields.take(n) =~= fields);
    } else {
        lemma_fields_start(at, fields, indexes, n + 1);
        assert(fields.take(n + 1).drop_last() =~= fields.take(n));
    }
}

proof fn lemma_items_start(at: Seq<char>, items: Seq<Json>, indexes: Seq<nat>, n: int)
    requires
        0 <= n <= items.len(),
    ensures
        walk::walk_items(at, by_paths(), items.take(n), indexes).is_prefix_of(
            walk::walk_items(at, by_paths(), items, indexes),
        ),
    decreases items.len() - n,
{
    if n == items.len() {
        assert(items.take(n) =~= items);
    } else {
        lemma_items_start(at, items, indexes, n + 1);
        assert(items.take(n + 1).drop_last() =~= items.take(n));
    }
}

/// What a walk starts with needs no other names, and keeps the whole from fitting if it does
/// not fit itself.
pub proof fn lemma_walk_part(
    start: Log<Seq<char>, Seq<char>>,
    a: Seq<Occ<Seq<char>>>,
    b: Seq<Occ<Seq<char>>>,
)
    requires
        a.is_prefix_of(b),
    ensures
        names::within(names::names_of(a), names::names_of(b)),
        !tables::facts_fit(tables::joined_logs(start, log_of(a))) ==> !tables::facts_fit(
            tables::joined_logs(start, log_of(b)),
        ),
{
    let rest = b.skip(a.len() as int);
    assert(b =~= a + rest);
    names::lemma_names_concat(a, rest);
    lemma_log_of_concat(a, rest);
    tables::lemma_starts_concat(log_of(a), log_of(rest));
    tables::lemma_starts_joined(start, log_of(a), log_of(b));
    lemma_part(tables::joined_logs(start, log_of(a)), tables::joined_logs(start, log_of(b)));
}

/// What recording a walk did.
pub open spec fn recorded_walk<R: RecorderModel>(
    before: R,
    after: R,
    r: Result<(), StreamError>,
    occs: Seq<Occ<Seq<char>>>,
) -> bool {
    recorded(
        before,
        after,
        r,
        tables::joined_logs(before.log(), log_of(occs)),
        names::names_of(occs),
    ) && (r is Ok ==> numbers(after, names::names_of(occs)))
}

/// A walk recorded after another, as parts of a whole.
proof fn lemma_recorded_next<R: RecorderModel>(
    start: R,
    before: R,
    after: R,
    r: Result<(), StreamError>,
    a: Seq<Occ<Seq<char>>>,
    b: Seq<Occ<Seq<char>>>,
    more: Names,
)
    requires
        start.ready(),
        before.log() == tables::joined_logs(start.log(), log_of(a)),
        keeps_places(start, before),
        recorded_walk(before, after, r, b),
        grew(start, before, more),
        names::within(names::names_of(b), more),
        names::finite(more),
    ensures
        recorded(start, after, r, tables::joined_logs(start.log(), log_of(a + b)), more),
        r is Ok ==> numbers(after, names::names_of(b)) && (R::limited() ==> names::within(
            before.names(),
            after.names(),
        )),
{
    lemma_log_of_concat(a, b);
    lemma_join_assoc(start.log(), log_of(a), log_of(b));
    lemma_step(start, before, after, names::names_of(b), more);
}

/// Records an object and every object in it.
pub(crate) fn record_object<R: Recorder>(
    out: &mut R,
    place: &R::Place,
    object: &Vec<(String, JsonValue)>,
    role: Role,
    array_indexes: &Vec<usize>,
) -> (r: Result<(), StreamError>)
    requires
        old(out).ready(),
        old(out).knows(*place),
    ensures
        recorded_walk(
            *old(out),
            *final(out),
            r,
            walk::walk_object(
                old(out).place_path(*place),
                by_paths(),
                json::fields_model(object@),
                role,
                text::models(array_indexes@),
            ),
        ),
    decreases object, 1int,
{
    let ghost start = *out;
    let ghost at = out.place_path(*place);
    let ghost fields = json::fields_model(object@);
    let ghost indexes = text::models(array_indexes@);
    let ghost own = Occ { at, fields, role, indexes };
    let ghost inside = walk::walk_fields(at, by_paths(), fields, indexes);
    let ghost whole = walk::walk_object(at, by_paths(), fields, role, indexes);
    proof {
        lemma_log_of_one(own);
        assert(whole == seq![own] + inside);
        lemma_walk_part(start.log(), seq![own], whole);
        names::lemma_names_of_one(own);
        names::lemma_names_concat(seq![own], inside);
        names::law_names_are_no_more_than_facts(whole);
        start.named(*place);
    }
    let ghost need = names::names_of(whole);
    let noted = if role == Role::Object {
        proof {
            let l = tables::joined_logs(start.log(), own_log(own));
            let m = start.log();
            assert(l.objects =~= m.objects.push((at, ())));
            assert(l.fields =~= m.fields + fields_values(at, fields));
            assert(l.members =~= m.members + fields_members(at, fields));
            assert(l.items =~= m.items);
            assert(l.refs =~= m.refs);
            assert(l.item_fields =~= m.item_fields);
        }
        record_object_facts(out, place, object)
    } else {
        record_item_facts(out, place, object, role, array_indexes)
    };
    proof {
        lemma_step(start, start, *out, facts_names(at, fields), need);
    }
    assert(recorded(start, *out, noted, tables::joined_logs(start.log(), log_of(seq![own])), need));
    match noted {
        Ok(_) => {},
        Err(e) => {
            return Err(e);
        },
    }
    let mut i: usize = 0;
    proof {
        assert(fields.take(0) =~= Seq::empty());
        assert(seq![own] + walk::walk_fields(at, by_paths(), fields.take(0), indexes) =~= seq![
            own,
        ]);
    }
    while i < object.len()
        invariant
            fields == json::fields_model(object@),
            indexes == text::models(array_indexes@),
            whole == seq![own] + inside,
            inside == walk::walk_fields(at, by_paths(), fields, indexes),
            whole == walk::walk_object(at, by_paths(), fields, role, indexes),
            own == (Occ { at, fields, role, indexes }),
            need == names::names_of(whole),
            need == names::joined_names(names::own_names(own), names::names_of(inside)),
            names::finite(need),
            i <= object@.len(),
            start == *old(out),
            start.ready(),
            grew(start, *out, need),
            numbers(*out, names::keys_names(fields)),
            numbers(*out, names::nested_names(at, fields.take(i as int))),
            numbers(
                *out,
                names::names_of(walk::walk_fields(at, by_paths(), fields.take(i as int), indexes)),
            ),
            start.knows(*place),
            at == start.place_path(*place),
            out.ready(),
            keeps_places(start, *out),
            out.log() == tables::joined_logs(
                start.log(),
                log_of(
                    seq![own] + walk::walk_fields(at, by_paths(), fields.take(i as int), indexes),
                ),
            ),
        decreases object@.len() - i,
    {
        let ghost before = *out;
        let ghost done = seq![own] + walk::walk_fields(
            at,
            by_paths(),
            fields.take(i as int),
            indexes,
        );
        let ghost child_path = path::child(at, fields[i as int].0);
        let ghost value = json::model(object@[i as int].1);
        let ghost more = walk::walk_child(child_path, by_paths(), value, indexes);
        let ghost next = seq![own] + walk::walk_fields(
            at,
            by_paths(),
            fields.take(i + 1),
            indexes,
        );
        proof {
            assert(before.knows(*place));
            assert(fields.take(i + 1).drop_last() =~= fields.take(i as int));
            assert(fields.take(i + 1).last() == fields[i as int]);
            assert(next =~= done + more);
            lemma_fields_start(at, fields, indexes, i + 1);
            assert(next.is_prefix_of(whole));
            lemma_walk_part(start.log(), next, whole);
            names::lemma_fields_within(at, fields, i as int);
            names::lemma_names_concat(
                walk::walk_fields(at, by_paths(), fields.take(i as int), indexes),
                more,
            );
            names::lemma_names_concat(done, more);
            assert(names::within(names::names_of(more), need));
        }
        match &object[i].1 {
            JsonValue::Object(map) => {
                proof {
                    json::lemma_model_object(*map);
                }
                let child = out.child(place, &object[i].0);
                proof {
                    lemma_step(
                        start,
                        before,
                        *out,
                        names::child_names(at, fields[i as int].0),
                        need,
                    );
                }
                let place = match child {
                    Ok(place) => place,
                    Err(e) => {
                        return Err(e);
                    },
                };
                let ghost entered = *out;
                let r = record_object(out, &place, map, Role::Object, array_indexes);
                proof {
                    lemma_recorded_next(start, entered, *out, r, done, more, need);
                }
                match r {
                    Ok(_) => {},
                    Err(e) => {
                        return Err(e);
                    },
                }
            },
            JsonValue::Array(items) => {
                proof {
                    json::lemma_model_array(*items);
                }
                let child = out.child(place, &object[i].0);
                proof {
                    lemma_step(
                        start,
                        before,
                        *out,
                        names::child_names(at, fields[i as int].0),
                        need,
                    );
                }
                let place = match child {
                    Ok(place) => place,
                    Err(e) => {
                        return Err(e);
                    },
                };
                let ghost entered = *out;
                let r = record_items(out, &place, items, array_indexes);
                proof {
                    lemma_recorded_next(start, entered, *out, r, done, more, need);
                }
                match r {
                    Ok(_) => {},
                    Err(e) => {
                        return Err(e);
                    },
                }
            },
            _ => {
                assert(done + more =~= done);
            },
        }
        i = i + 1;
    }
    assert(fields.take(fields.len() as int) =~= fields);
    Ok(())
}

/// Records every object in an array.
pub(crate) fn record_items<R: Recorder>(
    out: &mut R,
    place: &R::Place,
    items: &Vec<JsonValue>,
    array_indexes: &Vec<usize>,
) -> (r: Result<(), StreamError>)
    requires
        old(out).ready(),
        old(out).knows(*place),
    ensures
        recorded_walk(
            *old(out),
            *final(out),
            r,
            walk::walk_items(
                old(out).place_path(*place),
                by_paths(),
                json::items_model(items@),
                text::models(array_indexes@),
            ),
        ),
    decreases items, 0int,
{
    let ghost start = *out;
    let ghost at = out.place_path(*place);
    let ghost all = json::items_model(items@);
    let ghost indexes = text::models(array_indexes@);
    let ghost whole = walk::walk_items(at, by_paths(), all, indexes);
    let ghost need = names::names_of(whole);
    let mut i: usize = 0;
    proof {
        assert(all.take(0) =~= Seq::empty());
        assert(walk::walk_items(at, by_paths(), all.take(0), indexes) =~= Seq::empty());
        lemma_join_empty(start.log());
        names::law_names_are_no_more_than_facts(whole);
    }
    while i < items.len()
        invariant
            all == json::items_model(items@),
            indexes == text::models(array_indexes@),
            whole == walk::walk_items(at, by_paths(), all, indexes),
            need == names::names_of(whole),
            names::finite(need),
            i <= items@.len(),
            start == *old(out),
            start.ready(),
            grew(start, *out, need),
            numbers(
                *out,
                names::names_of(walk::walk_items(at, by_paths(), all.take(i as int), indexes)),
            ),
            start.knows(*place),
            at == start.place_path(*place),
            out.ready(),
            keeps_places(start, *out),
            out.log() == tables::joined_logs(
                start.log(),
                log_of(walk::walk_items(at, by_paths(), all.take(i as int), indexes)),
            ),
        decreases items@.len() - i,
    {
        let ghost before = *out;
        let ghost done = walk::walk_items(at, by_paths(), all.take(i as int), indexes);
        let mut item_indexes = copy_indexes(array_indexes);
        item_indexes.push(i);
        let ghost more = walk::walk_item(
            at,
            by_paths(),
            all[i as int],
            indexes.push(i as nat),
        );
        proof {
            assert(before.knows(*place));
            assert(text::models(item_indexes@) =~= indexes.push(i as nat));
            assert(all.take(i + 1).drop_last() =~= all.take(i as int));
            assert(all.take(i + 1).last() == all[i as int]);
            assert(walk::walk_items(at, by_paths(), all.take(i + 1), indexes) =~= done + more);
            lemma_items_start(at, all, indexes, i + 1);
            lemma_walk_part(start.log(), done + more, whole);
            names::lemma_names_concat(done, more);
        }
        match &items[i] {
            JsonValue::Object(map) => {
                proof {
                    json::lemma_model_object(*map);
                }
                let r = record_object(out, place, map, Role::ArrayItem, &item_indexes);
                proof {
                    lemma_recorded_next(start, before, *out, r, done, more, need);
                }
                match r {
                    Ok(_) => {},
                    Err(e) => {
                        return Err(e);
                    },
                }
            },
            JsonValue::Array(nested) => {
                proof {
                    json::lemma_model_array(*nested);
                }
                let r = record_items(out, place, nested, &item_indexes);
                proof {
                    lemma_recorded_next(start, before, *out, r, done, more, need);
                }
                match r {
                    Ok(_) => {},
                    Err(e) => {
                        return Err(e);
                    },
                }
            },
            _ => {
                assert(done + more =~= done);
            },
        }
        i = i + 1;
    }
    assert(all.take(all.len() as int) =~= all);
    Ok(())
}

} // verus!
