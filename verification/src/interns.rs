//! Numbers that stand for paths and field names.

use crate::names;
use crate::names::Names;
use crate::order;
use crate::ordmap::{Key, OrdMap};
use crate::path;
use crate::path::path_segment;
use vstd::prelude::*;

verus! {

/// A string interner.
#[verifier::external_type_specification]
#[verifier::external_body]
#[verifier::reject_recursive_types(K)]
#[verifier::reject_recursive_types(S)]
pub struct ExRodeo<K, S>(lasso::Rodeo<K, S>);

/// The key of an interned string.
#[verifier::external_type_specification]
#[verifier::external_body]
pub struct ExSpur(lasso::Spur);

/// The strings of an interner, each at the number that its key stands for.
pub uninterp spec fn interned(rodeo: lasso::Rodeo) -> Seq<Seq<char>>;

/// The names once `name` is among them: it comes last if it is new.
pub open spec fn with_name(names: Seq<Seq<char>>, name: Seq<char>) -> Seq<Seq<char>> {
    if names.contains(name) {
        names
    } else {
        names.push(name)
    }
}

/// `lasso::Rodeo::new` makes an interner without strings.
#[verifier::external_body]
fn new_rodeo() -> (r: lasso::Rodeo)
    ensures
        interned(r).len() == 0,
{
    lasso::Rodeo::new()
}

/// `lasso::Rodeo::len` counts the strings.
#[verifier::external_body]
fn count(rodeo: &lasso::Rodeo) -> (r: usize)
    ensures
        r == interned(*rodeo).len(),
{
    rodeo.len()
}

/// `lasso::Rodeo::contains` tells whether a string has a key.
#[verifier::external_body]
fn knows_text(rodeo: &lasso::Rodeo, text: &str) -> (r: bool)
    ensures
        r == interned(*rodeo).contains(text@),
{
    rodeo.contains(text)
}

/// `lasso::Rodeo::get_or_intern` finds the key of a string, or puts the string behind the
/// others: keys number the strings in the order in which they came, from zero. A key is a
/// non-zero `u32`, so that a new string finds one as long as there are fewer than `u32::MAX`.
#[verifier::external_body]
fn intern(rodeo: &mut lasso::Rodeo, text: &str) -> (id: usize)
    requires
        interned(*old(rodeo)).contains(text@) || interned(*old(rodeo)).len() < u32::MAX,
    ensures
        id < interned(*final(rodeo)).len(),
        interned(*final(rodeo))[id as int] == text@,
        interned(*final(rodeo)) == with_name(interned(*old(rodeo)), text@),
{
    lasso::Key::into_usize(rodeo.get_or_intern(text))
}

/// `lasso::Rodeo::resolve` gives back the string of a key.
#[verifier::external_body]
fn resolve(rodeo: &lasso::Rodeo, id: usize) -> (r: &str)
    requires
        id < interned(*rodeo).len(),
    ensures
        r@ == interned(*rodeo)[id as int],
{
    let key: lasso::Spur = lasso::Key::try_from_usize(id).unwrap();
    rodeo.resolve(&key)
}

/// The name is new, and there is no number for it.
pub open spec fn crowded(names: Seq<Seq<char>>, name: Seq<char>) -> bool {
    !names.contains(name) && names.len() >= u32::MAX
}

/// The number of a string, if there is one for it.
fn intern_if_room(rodeo: &mut lasso::Rodeo, text: &str) -> (r: Option<usize>)
    ensures
        match r {
            Some(id) => !crowded(interned(*old(rodeo)), text@) && id < interned(
                *final(rodeo),
            ).len() && interned(*final(rodeo))[id as int] == text@ && interned(*final(rodeo))
                == with_name(interned(*old(rodeo)), text@),
            None => crowded(interned(*old(rodeo)), text@) && interned(*final(rodeo)) == interned(
                *old(rodeo),
            ),
        },
{
    if count(rodeo) >= u32::MAX as usize && !knows_text(rodeo, text) {
        return None;
    }
    Some(intern(rodeo, text))
}

/// A number that stands for a path.
#[derive(Clone, Copy, PartialEq, Eq, Structural, Debug)]
pub struct PathId {
    pub id: usize,
}

/// A number that stands for a field name.
#[derive(Clone, Copy, PartialEq, Eq, Structural, Debug)]
pub struct FieldId {
    pub id: usize,
}

impl Key for PathId {
    type Model = nat;

    open spec fn model(&self) -> nat {
        self.id as nat
    }

    fn precedes(&self, other: &Self) -> (r: bool) {
        assert(order::Ordered::before(self.model(), other.model()) == (self.model()
            < other.model()));
        self.id < other.id
    }
}

impl Key for FieldId {
    type Model = nat;

    open spec fn model(&self) -> nat {
        self.id as nat
    }

    fn precedes(&self, other: &Self) -> (r: bool) {
        assert(order::Ordered::before(self.model(), other.model()) == (self.model()
            < other.model()));
        self.id < other.id
    }
}

/// `short` is how `long` starts.
pub open spec fn starts<A>(short: Seq<A>, long: Seq<A>) -> bool {
    short.len() <= long.len() && long.take(short.len() as int) =~= short
}

/// A name that comes in is one more name.
pub proof fn lemma_with_name(given: Seq<Seq<char>>, name: Seq<char>)
    ensures
        with_name(given, name).to_set() == given.to_set().insert(name),
{
    let more = with_name(given, name);
    assert forall|n: Seq<char>| #[trigger] more.to_set().contains(n) <==> given.to_set().insert(
        name,
    ).contains(n) by {
        if more.contains(n) {
            let i = choose|i: int| 0 <= i < more.len() && more[i] == n;
            if i < given.len() {
                assert(given[i] == n);
            }
        }
        if given.contains(n) {
            let i = choose|i: int| 0 <= i < given.len() && given[i] == n;
            assert(more[i] == n);
        }
        if n == name && !given.contains(name) {
            assert(more[given.len() as int] == n);
        }
    }
    assert(more.to_set() =~= given.to_set().insert(name));
}

/// Where there is no number for a name, the names with it do not fit.
pub proof fn lemma_crowded(given: Seq<Seq<char>>, name: Seq<char>)
    requires
        given.no_duplicates(),
        crowded(given, name),
    ensures
        given.to_set().insert(name).len() > u32::MAX,
        given.to_set().insert(name).finite(),
{
    given.unique_seq_to_set();
    assert(!given.to_set().contains(name));
}

/// Paths, field names and escaped field names with their numbers, and which path lies below
/// which other.
pub struct StreamInterns {
    paths: lasso::Rodeo,
    fields: lasso::Rodeo,
    segments: lasso::Rodeo,
    field_segments: OrdMap<usize, usize>,
    child_paths: OrdMap<(usize, usize), usize>,
}

impl StreamInterns {
    pub closed spec fn path_names(self) -> Seq<Seq<char>> {
        interned(self.paths)
    }

    pub closed spec fn field_names(self) -> Seq<Seq<char>> {
        interned(self.fields)
    }

    /// The escaped field names.
    pub closed spec fn segment_names(self) -> Seq<Seq<char>> {
        interned(self.segments)
    }

    pub closed spec fn wf(self) -> bool {
        let paths = interned(self.paths);
        let fields = interned(self.fields);
        let segments = interned(self.segments);
        &&& paths.len() <= u32::MAX
        &&& fields.len() <= u32::MAX
        &&& segments.len() <= u32::MAX
        &&& paths.no_duplicates()
        &&& fields.no_duplicates()
        &&& segments.no_duplicates()
        &&& self.field_segments.wf()
        &&& self.child_paths.wf()
        &&& forall|f: nat| #[trigger]
            self.field_segments.map().contains_key(f) ==> f < fields.len()
                && self.field_segments.map()[f] < segments.len()
                && segments[self.field_segments.map()[f] as int] == path::segment(fields[f as int])
        &&& forall|k: (nat, nat)| #[trigger]
            self.child_paths.map().contains_key(k) ==> k.0 < paths.len() && k.1 < segments.len()
                && self.child_paths.map()[k] < paths.len()
                && paths[self.child_paths.map()[k] as int] == paths[k.0 as int] + "/"@
                + segments[k.1 as int]
    }

    /// The names that have numbers.
    pub open spec fn names(self) -> Names {
        Names {
            paths: self.path_names().to_set(),
            fields: self.field_names().to_set(),
            segments: self.segment_names().to_set(),
        }
    }

    /// Names keep their numbers.
    pub open spec fn grown_from(self, before: Self) -> bool {
        starts(before.path_names(), self.path_names()) && starts(
            before.field_names(),
            self.field_names(),
        ) && starts(before.segment_names(), self.segment_names())
    }

    pub proof fn lemma_distinct(self)
        requires
            self.wf(),
        ensures
            self.path_names().no_duplicates(),
            self.field_names().no_duplicates(),
            self.segment_names().no_duplicates(),
            names::fits(self.names()),
            names::finite(self.names()),
    {
        self.path_names().unique_seq_to_set();
        self.field_names().unique_seq_to_set();
        self.segment_names().unique_seq_to_set();
    }

    pub fn new() -> (r: Self)
        ensures
            r.wf(),
            r.path_names().len() == 0,
            r.field_names().len() == 0,
            r.segment_names().len() == 0,
    {
        StreamInterns {
            paths: new_rodeo(),
            fields: new_rodeo(),
            segments: new_rodeo(),
            field_segments: OrdMap::new(),
            child_paths: OrdMap::new(),
        }
    }

    /// The number of a path; none if there is none for it.
    pub fn intern_path(&mut self, path: &str) -> (r: Option<PathId>)
        requires
            old(self).wf(),
        ensures
            final(self).wf(),
            final(self).grown_from(*old(self)),
            final(self).field_names() == old(self).field_names(),
            final(self).segment_names() == old(self).segment_names(),
            match r {
                Some(p) => !crowded(old(self).path_names(), path@) && p.id
                    < final(self).path_names().len() && final(self).path_names()[p.id as int]
                    == path@ && final(self).path_names() == with_name(
                    old(self).path_names(),
                    path@,
                ),
                None => crowded(old(self).path_names(), path@) && final(self).path_names()
                    == old(self).path_names(),
            },
    {
        self.intern_path_text(path)
    }

    fn intern_path_text(&mut self, path: &str) -> (r: Option<PathId>)
        requires
            old(self).wf(),
        ensures
            final(self).wf(),
            final(self).grown_from(*old(self)),
            final(self).fields == old(self).fields,
            final(self).segments == old(self).segments,
            final(self).child_paths == old(self).child_paths,
            final(self).field_segments == old(self).field_segments,
            match r {
                Some(p) => !crowded(old(self).path_names(), path@) && p.id
                    < final(self).path_names().len() && final(self).path_names()[p.id as int]
                    == path@ && final(self).path_names() == with_name(
                    old(self).path_names(),
                    path@,
                ),
                None => crowded(old(self).path_names(), path@) && final(self).path_names()
                    == old(self).path_names(),
            },
    {
        let ghost before = *self;
        match intern_if_room(&mut self.paths, path) {
            Some(id) => {
                proof {
                    let old_paths = interned(before.paths);
                    let paths = interned(self.paths);
                    assert(starts(old_paths, paths));
                    assert forall|k: (nat, nat)| #[trigger]
                        self.child_paths.map().contains_key(k) implies k.0 < paths.len()
                        && self.child_paths.map()[k] < paths.len()
                        && paths[self.child_paths.map()[k] as int] == paths[k.0 as int] + "/"@
                        + interned(self.segments)[k.1 as int] by {
                        assert(paths[k.0 as int] == old_paths[k.0 as int]);
                        assert(paths[self.child_paths.map()[k] as int]
                            == old_paths[self.child_paths.map()[k] as int]);
                    }
                }
                Some(PathId { id })
            },
            None => None,
        }
    }

    /// The number of a field name; none if there is none for it.
    pub fn intern_field(&mut self, field_name: &str) -> (r: Option<FieldId>)
        requires
            old(self).wf(),
        ensures
            final(self).wf(),
            final(self).grown_from(*old(self)),
            final(self).path_names() == old(self).path_names(),
            final(self).segment_names() == old(self).segment_names(),
            match r {
                Some(f) => !crowded(old(self).field_names(), field_name@) && f.id
                    < final(self).field_names().len() && final(self).field_names()[f.id as int]
                    == field_name@ && final(self).field_names() == with_name(
                    old(self).field_names(),
                    field_name@,
                ),
                None => crowded(old(self).field_names(), field_name@) && final(self).field_names()
                    == old(self).field_names(),
            },
    {
        let ghost before = *self;
        match intern_if_room(&mut self.fields, field_name) {
            Some(id) => {
                proof {
                    let old_fields = interned(before.fields);
                    let fields = interned(self.fields);
                    assert(starts(old_fields, fields));
                    assert forall|f: nat| #[trigger]
                        self.field_segments.map().contains_key(f) implies f < fields.len()
                        && interned(self.segments)[self.field_segments.map()[f] as int]
                        == path::segment(fields[f as int]) by {
                        assert(fields[f as int] == old_fields[f as int]);
                    }
                }
                Some(FieldId { id })
            },
            None => None,
        }
    }

    pub fn resolve_path(&self, path_id: PathId) -> (r: &str)
        requires
            path_id.id < self.path_names().len(),
        ensures
            r@ == self.path_names()[path_id.id as int],
    {
        resolve(&self.paths, path_id.id)
    }

    pub fn resolve_field(&self, field_id: FieldId) -> (r: &str)
        requires
            field_id.id < self.field_names().len(),
        ensures
            r@ == self.field_names()[field_id.id as int],
    {
        resolve(&self.fields, field_id.id)
    }

    /// The number of the escaped name of a field; none if there is none for it.
    fn intern_escaped_segment_for_field(&mut self, field_id: FieldId) -> (r: Option<usize>)
        requires
            old(self).wf(),
            field_id.id < old(self).field_names().len(),
        ensures
            final(self).wf(),
            final(self).path_names() == old(self).path_names(),
            final(self).field_names() == old(self).field_names(),
            ({
                let escaped = path::segment(old(self).field_names()[field_id.id as int]);
                match r {
                    Some(s) => !crowded(old(self).segment_names(), escaped) && s
                        < final(self).segment_names().len()
                        && final(self).segment_names()[s as int] == escaped
                        && final(self).segment_names() == with_name(
                        old(self).segment_names(),
                        escaped,
                    ),
                    None => crowded(old(self).segment_names(), escaped) && final(self).segment_names() == old(self).segment_names(),
                }
            }),
    {
        let ghost before = *self;
        if let Some(segment_id) = self.field_segments.get(&field_id.id) {
            assert(self.segment_names().contains(self.segment_names()[*segment_id as int]));
            return Some(*segment_id);
        }
        let escaped = path_segment(self.resolve_field(field_id));
        match intern_if_room(&mut self.segments, escaped.as_str()) {
            Some(segment_id) => {
                proof {
                    let old_segments = interned(before.segments);
                    let segments = interned(self.segments);
                    assert(starts(old_segments, segments));
                    assert forall|f: nat| #[trigger]
                        before.field_segments.map().contains_key(f) implies segments[before.field_segments.map()[f] as int]
                        == old_segments[before.field_segments.map()[f] as int] by {}
                    assert forall|k: (nat, nat)| #[trigger]
                        before.child_paths.map().contains_key(k) implies segments[k.1 as int]
                        == old_segments[k.1 as int] by {}
                }
                self.field_segments.insert(field_id.id, segment_id);
                Some(segment_id)
            },
            None => None,
        }
    }

    /// The number of the path of a field below a path; none if there is no number for the escaped
    /// name of the field, or none for the path.
    pub fn child_path(&mut self, parent: PathId, field_id: FieldId) -> (r: Option<PathId>)
        requires
            old(self).wf(),
            parent.id < old(self).path_names().len(),
            field_id.id < old(self).field_names().len(),
        ensures
            ({
                let name = old(self).field_names()[field_id.id as int];
                let escaped = path::segment(name);
                let child = path::child(old(self).path_names()[parent.id as int], name);
                &&& final(self).wf()
                &&& final(self).grown_from(*old(self))
                &&& final(self).field_names() == old(self).field_names()
                &&& match r {
                    Some(p) => !crowded(old(self).segment_names(), escaped) && !crowded(
                        old(self).path_names(),
                        child,
                    ) && p.id < final(self).path_names().len()
                        && final(self).path_names()[p.id as int] == child
                        && final(self).path_names() == with_name(old(self).path_names(), child)
                        && final(self).segment_names() == with_name(
                        old(self).segment_names(),
                        escaped,
                    ),
                    None => final(self).path_names() == old(self).path_names() && if crowded(
                        old(self).segment_names(),
                        escaped,
                    ) {
                        final(self).segment_names() == old(self).segment_names()
                    } else {
                        crowded(old(self).path_names(), child) && final(self).segment_names()
                            == with_name(old(self).segment_names(), escaped)
                    },
                }
            }),
    {
        let segment_id = match self.intern_escaped_segment_for_field(field_id) {
            Some(segment_id) => segment_id,
            None => {
                return None;
            },
        };
        let ghost before = *self;
        let key = (parent.id, segment_id);
        if let Some(child) = self.child_paths.get(&key) {
            assert(self.path_names().contains(self.path_names()[*child as int]));
            return Some(PathId { id: *child });
        }
        let mut path = self.resolve_path(parent).to_string();
        path.append("/");
        path.append(resolve(&self.segments, segment_id));
        match self.intern_path_text(path.as_str()) {
            Some(child) => {
                proof {
                    assert(interned(self.paths)[parent.id as int] == interned(
                        before.paths,
                    )[parent.id as int]) by {
                        assert(starts(interned(before.paths), interned(self.paths)));
                        assert(interned(self.paths).take(
                            interned(before.paths).len() as int,
                        )[parent.id as int] == interned(self.paths)[parent.id as int]);
                    }
                }
                self.child_paths.insert(key, child.id);
                Some(child)
            },
            None => None,
        }
    }
}

} // verus!
