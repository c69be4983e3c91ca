//! The names that recording a walk needs numbers for.

use crate::json::Json;
use crate::path;
use crate::recorder;
use crate::tables;
use crate::walk::Occ;
use vstd::prelude::*;

verus! {

/// Paths, field names and escaped field names.
pub ghost struct Names {
    pub paths: Set<Seq<char>>,
    pub fields: Set<Seq<char>>,
    pub segments: Set<Seq<char>>,
}

pub open spec fn no_names() -> Names {
    Names { paths: Set::empty(), fields: Set::empty(), segments: Set::empty() }
}

/// The names of `a` and of `b`.
pub open spec fn joined_names(a: Names, b: Names) -> Names {
    Names {
        paths: a.paths.union(b.paths),
        fields: a.fields.union(b.fields),
        segments: a.segments.union(b.segments),
    }
}

/// The names of `a` are among those of `b`.
pub open spec fn within(a: Names, b: Names) -> bool {
    a.paths.subset_of(b.paths) && a.fields.subset_of(b.fields) && a.segments.subset_of(b.segments)
}

pub open spec fn finite(n: Names) -> bool {
    n.paths.finite() && n.fields.finite() && n.segments.finite()
}

/// There is a number for every name.
pub open spec fn fits(n: Names) -> bool {
    n.paths.len() <= u32::MAX && n.fields.len() <= u32::MAX && n.segments.len() <= u32::MAX
}

pub open spec fn one_path(p: Seq<char>) -> Names {
    Names { paths: set![p], ..no_names() }
}

pub open spec fn one_field(key: Seq<char>) -> Names {
    Names { fields: set![key], ..no_names() }
}

/// The names for the path of a field below a path.
pub open spec fn child_names(at: Seq<char>, key: Seq<char>) -> Names {
    Names {
        paths: set![path::child(at, key)],
        fields: set![key],
        segments: set![path::segment(key)],
    }
}

/// The names of the fields of an object.
pub open spec fn keys_names(fields: Seq<(Seq<char>, Json)>) -> Names
    decreases fields.len(),
{
    if fields.len() == 0 {
        no_names()
    } else {
        joined_names(keys_names(fields.drop_last()), one_field(fields.last().0))
    }
}

/// The value can hold objects.
pub open spec fn is_nested(value: Json) -> bool {
    value is Object || value is Array
}

/// The names for the paths of the fields of an object that can hold objects.
pub open spec fn nested_names(at: Seq<char>, fields: Seq<(Seq<char>, Json)>) -> Names
    decreases fields.len(),
{
    if fields.len() == 0 {
        no_names()
    } else if is_nested(fields.last().1) {
        joined_names(nested_names(at, fields.drop_last()), child_names(at, fields.last().0))
    } else {
        nested_names(at, fields.drop_last())
    }
}

/// The names that an occurrence needs.
pub open spec fn own_names(o: Occ<Seq<char>>) -> Names {
    joined_names(
        one_path(o.at),
        joined_names(keys_names(o.fields), nested_names(o.at, o.fields)),
    )
}

/// The names that a walk needs.
pub open spec fn names_of(occs: Seq<Occ<Seq<char>>>) -> Names
    decreases occs.len(),
{
    if occs.len() == 0 {
        no_names()
    } else {
        joined_names(names_of(occs.drop_last()), own_names(occs.last()))
    }
}

pub proof fn lemma_fits_within(a: Names, b: Names)
    requires
        within(a, b),
        finite(b),
        fits(b),
    ensures
        fits(a),
        finite(a),
{
    vstd::set_lib::lemma_len_subset(a.paths, b.paths);
    vstd::set_lib::lemma_len_subset(a.fields, b.fields);
    vstd::set_lib::lemma_len_subset(a.segments, b.segments);
}

pub proof fn lemma_joined_none(a: Names)
    ensures
        joined_names(a, no_names()) == a,
        joined_names(no_names(), a) == a,
{
    let l = joined_names(a, no_names());
    let r = joined_names(no_names(), a);
    assert(l.paths =~= a.paths && l.fields =~= a.fields && l.segments =~= a.segments);
    assert(r.paths =~= a.paths && r.fields =~= a.fields && r.segments =~= a.segments);
}

pub proof fn lemma_joined_assoc(a: Names, b: Names, c: Names)
    ensures
        joined_names(joined_names(a, b), c) == joined_names(a, joined_names(b, c)),
{
    let l = joined_names(joined_names(a, b), c);
    let r = joined_names(a, joined_names(b, c));
    assert(l.paths =~= r.paths);
    assert(l.fields =~= r.fields);
    assert(l.segments =~= r.segments);
}

/// Names that are among each other are the same.
pub proof fn lemma_within_both(a: Names, b: Names)
    requires
        within(a, b),
        within(b, a),
    ensures
        a == b,
{
    assert(a.paths =~= b.paths);
    assert(a.fields =~= b.fields);
    assert(a.segments =~= b.segments);
}

pub proof fn lemma_names_concat(a: Seq<Occ<Seq<char>>>, b: Seq<Occ<Seq<char>>>)
    ensures
        names_of(a + b) == joined_names(names_of(a), names_of(b)),
    decreases b.len(),
{
    if b.len() == 0 {
        assert(a + b =~= a);
        lemma_joined_none(names_of(a));
    } else {
        lemma_names_concat(a, b.drop_last());
        assert((a + b).drop_last() =~= a + b.drop_last());
        lemma_joined_assoc(names_of(a), names_of(b.drop_last()), own_names(b.last()));
    }
}

pub proof fn lemma_names_of_one(o: Occ<Seq<char>>)
    ensures
        names_of(seq![o]) == own_names(o),
{
    assert(seq![o].drop_last() =~= Seq::empty());
    reveal_with_fuel(names_of, 2);
    lemma_joined_none(own_names(o));
}

/// At most `n` names of each sort.
pub open spec fn at_most(names: Names, n: nat) -> bool {
    finite(names) && names.paths.len() <= n && names.fields.len() <= n && names.segments.len() <= n
}

proof fn lemma_joined_at_most(a: Names, b: Names, m: nat, n: nat)
    requires
        at_most(a, m),
        at_most(b, n),
    ensures
        at_most(joined_names(a, b), m + n),
{
    vstd::set_lib::lemma_len_union(a.paths, b.paths);
    vstd::set_lib::lemma_len_union(a.fields, b.fields);
    vstd::set_lib::lemma_len_union(a.segments, b.segments);
}

proof fn lemma_keys_at_most(fields: Seq<(Seq<char>, Json)>)
    ensures
        at_most(keys_names(fields), fields.len()),
        keys_names(fields).paths == Set::<Seq<char>>::empty(),
        keys_names(fields).segments == Set::<Seq<char>>::empty(),
        forall|i: int| 0 <= i < fields.len() ==> keys_names(fields).fields.contains((#[trigger] fields[i]).0),
        forall|k: Seq<char>| #[trigger] keys_names(fields).fields.contains(k) ==> exists|i: int|
            0 <= i < fields.len() && (#[trigger] fields[i]).0 == k,
    decreases fields.len(),
{
    if fields.len() > 0 {
        let d = fields.drop_last();
        let n = fields.len() - 1;
        lemma_keys_at_most(d);
        lemma_joined_at_most(keys_names(d), one_field(fields.last().0), d.len(), 1);
        assert(keys_names(fields).paths =~= Set::empty());
        assert(keys_names(fields).segments =~= Set::empty());
        assert forall|i: int| 0 <= i < fields.len() implies keys_names(fields).fields.contains(
            (#[trigger] fields[i]).0,
        ) by {
            if i < n {
                assert(d[i] == fields[i]);
            }
        }
        assert forall|k: Seq<char>| #[trigger] keys_names(fields).fields.contains(k) implies exists|
            i: int,
        |
            0 <= i < fields.len() && (#[trigger] fields[i]).0 == k by {
            if keys_names(d).fields.contains(k) {
                let i = choose|i: int| 0 <= i < d.len() && (#[trigger] d[i]).0 == k;
                assert(fields[i].0 == k);
            } else {
                assert(fields[n].0 == k);
            }
        }
    }
}

proof fn lemma_nested_at_most(at: Seq<char>, fields: Seq<(Seq<char>, Json)>)
    ensures
        at_most(nested_names(at, fields), fields.len()),
        within(
            Names { paths: Set::empty(), segments: Set::empty(), ..nested_names(at, fields) },
            keys_names(fields),
        ),
    decreases fields.len(),
{
    if fields.len() > 0 {
        let d = fields.drop_last();
        lemma_nested_at_most(at, d);
        lemma_joined_at_most(nested_names(at, d), child_names(at, fields.last().0), d.len(), 1);
    }
}

/// An occurrence needs no more names of a sort than it has entries in the log.
proof fn lemma_own_at_most(o: Occ<Seq<char>>)
    ensures
        at_most(own_names(o), tables::log_size(recorder::own_log(o))),
{
    let keys = keys_names(o.fields);
    let nested = nested_names(o.at, o.fields);
    let n = o.fields.len();
    lemma_keys_at_most(o.fields);
    lemma_nested_at_most(o.at, o.fields);
    let inner = joined_names(keys, nested);
    assert(inner.paths =~= nested.paths);
    assert(inner.fields =~= keys.fields);
    assert(inner.segments =~= nested.segments);
    assert(at_most(inner, n));
    lemma_joined_at_most(one_path(o.at), inner, 1, n);
}

/// A walk needs no more names of a sort than it has entries in the log.
pub proof fn law_names_are_no_more_than_facts(occs: Seq<Occ<Seq<char>>>)
    ensures
        at_most(names_of(occs), tables::log_size(recorder::log_of(occs))),
    decreases occs.len(),
{
    if occs.len() > 0 {
        law_names_are_no_more_than_facts(occs.drop_last());
        lemma_own_at_most(occs.last());
        lemma_joined_at_most(
            names_of(occs.drop_last()),
            own_names(occs.last()),
            tables::log_size(recorder::log_of(occs.drop_last())),
            tables::log_size(recorder::own_log(occs.last())),
        );
    }
}

/// A walk needs the path of its first object.
pub proof fn lemma_root_within(occs: Seq<Occ<Seq<char>>>)
    requires
        occs.len() > 0,
    ensures
        within(one_path(occs[0].at), names_of(occs)),
    decreases occs.len(),
{
    if occs.len() > 1 {
        lemma_root_within(occs.drop_last());
        assert(occs.drop_last()[0] == occs[0]);
    }
}

pub proof fn lemma_finite_names(at: Seq<char>, fields: Seq<(Seq<char>, Json)>)
    ensures
        finite(keys_names(fields)),
        finite(nested_names(at, fields)),
{
    lemma_keys_at_most(fields);
    lemma_nested_at_most(at, fields);
}

/// The names that the fields up to some place need are among those that all need.
pub proof fn lemma_fields_within(at: Seq<char>, fields: Seq<(Seq<char>, Json)>, n: int)
    requires
        0 <= n <= fields.len(),
    ensures
        within(keys_names(fields.take(n)), keys_names(fields)),
        within(nested_names(at, fields.take(n)), nested_names(at, fields)),
        n < fields.len() ==> within(one_field(fields[n].0), keys_names(fields)),
        n < fields.len() && is_nested(fields[n].1) ==> within(
            child_names(at, fields[n].0),
            nested_names(at, fields),
        ),
    decreases fields.len() - n,
{
    if n == fields.len() {
        assert(fields.take(n) =~= fields);
    } else {
        lemma_fields_within(at, fields, n + 1);
        assert(fields.take(n + 1).drop_last() =~= fields.take(n));
        assert(fields.take(n + 1).last() == fields[n]);
    }
}

} // verus!
