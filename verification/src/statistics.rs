//! How many objects, and fields of objects, each schema describes.

use crate::index;
use crate::index::is_refs_mut_schema;
use crate::json;
use crate::json::Json;
use crate::order;
use crate::ordmap::{Key, OrdMap};
use crate::path;
use crate::path::{json_path, reference_path};
use crate::text;
use crate::walk;
use crate::walk::{copy_indexes, Occ, Occurrence, Role};
use vstd::prelude::*;

verus! {

/// What an occurrence is looked up in: the schema of each schema path, the schema path of each
/// object path, and the schema path of each item position.
pub ghost struct Lookups {
    pub definitions: Map<Seq<char>, Seq<(Seq<char>, Seq<char>)>>,
    pub paths: Map<Seq<char>, Seq<char>>,
    pub refs: Map<(Seq<char>, Seq<nat>), Seq<char>>,
}

/// Why an occurrence could not be counted.
pub ghost enum Fault {
    SchemaPath(Seq<char>),
    IndexRef(Seq<char>, Seq<nat>),
    Schema(Seq<char>),
    FieldType(Seq<char>, Seq<char>),
}

/// The path of the schema that describes an occurrence.
pub open spec fn resolved(
    outdir: Seq<char>,
    paths: Map<Seq<char>, Seq<char>>,
    refs: Map<(Seq<char>, Seq<nat>), Seq<char>>,
    o: Occ<Seq<Seq<char>>>,
) -> Result<
    Seq<char>,
    Fault,
> {
    let file = path::json_file(path::reference(outdir, o.at));
    if o.role == Role::Object {
        if paths.contains_key(file) {
            Ok(paths[file])
        } else {
            Err(Fault::SchemaPath(file))
        }
    } else {
        if refs.contains_key((file, o.indexes)) {
            Ok(refs[(file, o.indexes)])
        } else {
            Err(Fault::IndexRef(file, o.indexes))
        }
    }
}

/// The first field that a schema does not have.
pub open spec fn unlabelled(
    schema: Seq<(Seq<char>, Seq<char>)>,
    fields: Seq<(Seq<char>, Json)>,
) -> Option<Seq<char>>
    decreases fields.len(),
{
    if fields.len() == 0 {
        None
    } else {
        match unlabelled(schema, fields.drop_last()) {
            Some(name) => Some(name),
            None => if index::label_in(schema, fields.last().0) is None {
                Some(fields.last().0)
            } else {
                None
            },
        }
    }
}

/// Why an occurrence cannot be counted.
pub open spec fn occurrence_fault(
    outdir: Seq<char>,
    l: Lookups,
    o: Occ<Seq<Seq<char>>>,
) -> Option<Fault> {
    match resolved(outdir, l.paths, l.refs, o) {
        Err(fault) => Some(fault),
        Ok(p) => if !l.definitions.contains_key(p) {
            Some(Fault::Schema(p))
        } else if index::is_container(l.definitions[p]) {
            None
        } else {
            match unlabelled(l.definitions[p], o.fields) {
                Some(name) => Some(Fault::FieldType(p, name)),
                None => None,
            }
        },
    }
}

/// Why the first occurrence that cannot be counted cannot.
pub open spec fn statistics_fault(
    outdir: Seq<char>,
    l: Lookups,
    occs: Seq<Occ<Seq<Seq<char>>>>,
) -> Option<Fault>
    decreases occs.len(),
{
    if occs.len() == 0 {
        None
    } else {
        match statistics_fault(outdir, l, occs.drop_last()) {
            Some(fault) => Some(fault),
            None => occurrence_fault(outdir, l, occs.last()),
        }
    }
}

/// The counted occurrences: the schema path and the fields of each. Those that a container
/// schema describes are not counted.
pub open spec fn hits(outdir: Seq<char>, l: Lookups, occs: Seq<Occ<Seq<Seq<char>>>>) -> Seq<
    (Seq<char>, Seq<(Seq<char>, Json)>),
>
    decreases occs.len(),
{
    if occs.len() == 0 {
        Seq::empty()
    } else {
        let rest = hits(outdir, l, occs.drop_last());
        match resolved(outdir, l.paths, l.refs, occs.last()) {
            Err(_) => rest,
            Ok(p) => if index::is_container(l.definitions[p]) {
                rest
            } else {
                rest.push((p, occs.last().fields))
            },
        }
    }
}

pub open spec fn hits_of_fields(p: Seq<char>, fields: Seq<(Seq<char>, Json)>) -> Seq<
    ((Seq<char>, Seq<char>), ()),
> {
    Seq::new(fields.len(), |i: int| ((p, fields[i].0), ()))
}

/// The counted fields: schema path and name of each.
pub open spec fn field_hits(hits: Seq<(Seq<char>, Seq<(Seq<char>, Json)>)>) -> Seq<
    ((Seq<char>, Seq<char>), ()),
>
    decreases hits.len(),
{
    if hits.len() == 0 {
        Seq::empty()
    } else {
        field_hits(hits.drop_last()) + hits_of_fields(hits.last().0, hits.last().1)
    }
}

pub open spec fn counts_of<K: Key>(m: OrdMap<K, u128>) -> Map<K::Model, nat> {
    m.map().map_values(|n: u128| n as nat)
}

/// The label and the count of each field.
pub open spec fn labelled(
    definitions: Map<Seq<char>, Seq<(Seq<char>, Seq<char>)>>,
    counts: Map<(Seq<char>, Seq<char>), nat>,
) -> Map<(Seq<char>, Seq<char>), (Seq<char>, nat)> {
    Map::new(
        |k: (Seq<char>, Seq<char>)| counts.contains_key(k),
        |k: (Seq<char>, Seq<char>)| (index::label_in(definitions[k.0], k.1)->0, counts[k]),
    )
}

pub open spec fn field_counts_of(m: OrdMap<(String, String), (String, u128)>) -> Map<
    (Seq<char>, Seq<char>),
    (Seq<char>, nat),
> {
    m.map().map_values(|v: (String, u128)| (v.0@, v.1 as nat))
}

pub proof fn lemma_under_len<K, V>(pairs: Seq<(K, V)>, k: K)
    ensures
        order::under(pairs, k).len() <= pairs.len(),
    decreases pairs.len(),
{
    if pairs.len() > 0 {
        lemma_under_len(pairs.drop_last(), k);
    }
}

pub proof fn lemma_counted_push<K, V>(pairs: Seq<(K, V)>, pair: (K, V))
    ensures
        index::counted(pairs.push(pair)) == index::counted(pairs).insert(
            pair.0,
            order::under(pairs, pair.0).len() + 1,
        ),
{
    let more = pairs.push(pair);
    assert(more.drop_last() =~= pairs);
    assert forall|k: K| order::firsts(more).contains(k) <==> (order::firsts(pairs).contains(k) || k
        == pair.0) by {
        order::lemma_under_nonempty(more, k);
        order::lemma_under_nonempty(pairs, k);
    }
    assert(index::counted(more) =~= index::counted(pairs).insert(
        pair.0,
        order::under(pairs, pair.0).len() + 1,
    ));
}

/// Adds one to the count of `key`.
fn bump<K: Key, V>(m: &mut OrdMap<K, u128>, key: K, Ghost(pairs): Ghost<
    Seq<(K::Model, V)>,
>, Ghost(v): Ghost<V>)
    requires
        old(m).wf(),
        counts_of(*old(m)) == index::counted(pairs),
        pairs.len() < u128::MAX,
    ensures
        final(m).wf(),
        counts_of(*final(m)) == index::counted(pairs.push((key.model(), v))),
{
    let ghost before = *m;
    proof {
        lemma_counted_push(pairs, (key.model(), v));
        lemma_under_len(pairs, key.model());
        order::lemma_under_nonempty(pairs, key.model());
        assert(before.map().dom() =~= counts_of(before).dom());
        assert(counts_of(before).contains_key(key.model()) ==> counts_of(before)[key.model()]
            == before.map()[key.model()] as nat);
    }
    let count: u128 = match m.get(&key) {
        Some(n) => *n + 1,
        None => 1,
    };
    m.insert(key, count);
    assert(counts_of(*m) =~= counts_of(before).insert(key.model(), count as nat));
}

/// Adds one to the count of a field and sets its label.
fn bump_field(
    m: &mut OrdMap<(String, String), (String, u128)>,
    key: (String, String),
    label: String,
    Ghost(pairs): Ghost<Seq<((Seq<char>, Seq<char>), ())>>,
    Ghost(definitions): Ghost<Map<Seq<char>, Seq<(Seq<char>, Seq<char>)>>>,
)
    requires
        old(m).wf(),
        field_counts_of(*old(m)) == labelled(definitions, index::counted(pairs)),
        index::label_in(definitions[key.0@], key.1@) == Some(label@),
        pairs.len() < u128::MAX,
    ensures
        final(m).wf(),
        field_counts_of(*final(m)) == labelled(
            definitions,
            index::counted(pairs.push(((key.0@, key.1@), ()))),
        ),
{
    let ghost before = *m;
    let ghost k = (key.0@, key.1@);
    proof {
        assert(key.model() == k);
        lemma_counted_push(pairs, (k, ()));
        lemma_under_len(pairs, k);
        order::lemma_under_nonempty(pairs, k);
        assert(before.map().dom() =~= field_counts_of(before).dom());
        assert(field_counts_of(before).contains_key(k) ==> field_counts_of(before)[k].1
            == before.map()[k].1 as nat);
    }
    let count: u128 = match m.get(&key) {
        Some(v) => v.1 + 1,
        None => 1,
    };
    m.insert(key, (label, count));
    proof {
        assert(field_counts_of(*m) =~= field_counts_of(before).insert(k, (label@, count as nat)));
        assert(field_counts_of(*m) =~= labelled(definitions, index::counted(pairs.push((k, ())))));
    }
}

/// Why occurrences could not be counted.
#[derive(Debug)]
pub enum StatisticsError {
    MissingSchemaPath(String),
    MissingIndexRef(String, Vec<usize>),
    MissingSchema(String),
    MissingFieldType(String, String),
}

pub open spec fn error_model(e: StatisticsError) -> Fault {
    match e {
        StatisticsError::MissingSchemaPath(p) => Fault::SchemaPath(p@),
        StatisticsError::MissingIndexRef(p, i) => Fault::IndexRef(p@, text::models(i@)),
        StatisticsError::MissingSchema(p) => Fault::Schema(p@),
        StatisticsError::MissingFieldType(p, f) => Fault::FieldType(p@, f@),
    }
}

/// What a fault is reported as.
pub open spec fn fault_message(f: Fault) -> Seq<char> {
    match f {
        Fault::SchemaPath(p) => "missing schema_paths entry for "@ + p,
        Fault::IndexRef(p, i) => "missing array_index_refs entry for "@ + p + " at "@
            + crate::index_path::json_text(i),
        Fault::Schema(p) => "missing in-memory schema for "@ + p,
        Fault::FieldType(p, f) => "missing field type for "@ + p + "."@ + f
            + " in canonical schema"@,
    }
}

impl StatisticsError {
    pub fn message(&self) -> (r: String)
        ensures
            r@ == fault_message(error_model(*self)),
    {
        match self {
            StatisticsError::MissingSchemaPath(p) => {
                let mut m = "missing schema_paths entry for ".to_string();
                m.append(p.as_str());
                m
            },
            StatisticsError::MissingIndexRef(p, i) => {
                let mut m = "missing array_index_refs entry for ".to_string();
                m.append(p.as_str());
                m.append(" at ");
                m.append(crate::index_path::index_path_json(i).as_str());
                m
            },
            StatisticsError::MissingSchema(p) => {
                let mut m = "missing in-memory schema for ".to_string();
                m.append(p.as_str());
                m
            },
            StatisticsError::MissingFieldType(p, f) => {
                let mut m = "missing field type for ".to_string();
                m.append(p.as_str());
                m.append(".");
                m.append(f.as_str());
                m.append(" in canonical schema");
                m
            },
        }
    }
}

/// Object and field counts by schema.
pub struct Statistics {
    pub object_counts: OrdMap<String, u128>,
    pub field_counts: OrdMap<(String, String), (String, u128)>,
}

pub open spec fn lookups(
    definitions: OrdMap<String, Vec<(String, String)>>,
    schema_paths: OrdMap<String, String>,
    array_index_refs: OrdMap<(String, Vec<usize>), String>,
) -> Lookups {
    Lookups {
        definitions: index::schemas_of(definitions),
        paths: index::texts_of(schema_paths),
        refs: index::texts_of(array_index_refs),
    }
}

/// The path of the schema that describes an occurrence.
pub fn canonical_schema_path_for_occurrence<'a>(
    outdir: &str,
    occurrence: &Occurrence,
    schema_paths: &'a OrdMap<String, String>,
    array_index_refs: &'a OrdMap<(String, Vec<usize>), String>,
) -> (r: Result<&'a String, StatisticsError>)
    requires
        schema_paths.wf(),
        array_index_refs.wf(),
    ensures
        match r {
            Ok(p) => resolved(outdir@, index::texts_of(*schema_paths), index::texts_of(*array_index_refs), walk::occurrence_model(*occurrence)) == Ok::<_, Fault>(p@),
            Err(e) => resolved(outdir@, index::texts_of(*schema_paths), index::texts_of(*array_index_refs), walk::occurrence_model(*occurrence)) == Err::<
                Seq<char>,
                _,
            >(error_model(e)),
        },
{
    let file = json_path(reference_path(outdir, &occurrence.segments).as_str());
    if occurrence.role == Role::Object {
        match schema_paths.get(&file) {
            Some(p) => Ok(p),
            None => Err(StatisticsError::MissingSchemaPath(file)),
        }
    } else {
        let key = (file, copy_indexes(&occurrence.array_indexes));
        match array_index_refs.get(&key) {
            Some(p) => Ok(p),
            None => Err(StatisticsError::MissingIndexRef(key.0, key.1)),
        }
    }
}

/// Counts the occurrences, and their fields, by the schema that describes each.
pub fn write_occurrence_statistics(
    outdir: &str,
    definitions: &OrdMap<String, Vec<(String, String)>>,
    schema_paths: &OrdMap<String, String>,
    array_index_refs: &OrdMap<(String, Vec<usize>), String>,
    occurrences: &Vec<Occurrence>,
) -> (r: Result<Statistics, StatisticsError>)
    requires
        definitions.wf(),
        schema_paths.wf(),
        array_index_refs.wf(),
    ensures
        ({
            let l = lookups(*definitions, *schema_paths, *array_index_refs);
            let occs = walk::occurrences_model(occurrences@);
            match r {
                Ok(s) => statistics_fault(outdir@, l, occs) is None && s.object_counts.wf()
                    && s.field_counts.wf() && counts_of(s.object_counts) == index::counted(
                    hits(outdir@, l, occs),
                ) && field_counts_of(s.field_counts) == labelled(
                    l.definitions,
                    index::counted(field_hits(hits(outdir@, l, occs))),
                ),
                Err(e) => statistics_fault(outdir@, l, occs) == Some(error_model(e)),
            }
        }),
{
    let ghost l = lookups(*definitions, *schema_paths, *array_index_refs);
    let ghost occs = walk::occurrences_model(occurrences@);
    let mut object_counts: OrdMap<String, u128> = OrdMap::new();
    let mut field_counts: OrdMap<(String, String), (String, u128)> = OrdMap::new();
    let mut i: usize = 0;
    proof {
        assert(occs.take(0) =~= Seq::empty());
        assert(counts_of(object_counts) =~= index::counted(hits(outdir@, l, occs.take(0))));
        assert(field_counts_of(field_counts) =~= labelled(
            l.definitions,
            index::counted(field_hits(hits(outdir@, l, occs.take(0)))),
        ));
        assert(0 * usize::MAX == 0) by (nonlinear_arith);
    }
    while i < occurrences.len()
        invariant
            definitions.wf(),
            schema_paths.wf(),
            array_index_refs.wf(),
            l == lookups(*definitions, *schema_paths, *array_index_refs),
            occs == walk::occurrences_model(occurrences@),
            i <= occurrences@.len(),
            statistics_fault(outdir@, l, occs.take(i as int)) is None,
            object_counts.wf(),
            field_counts.wf(),
            counts_of(object_counts) == index::counted(hits(outdir@, l, occs.take(i as int))),
            hits(outdir@, l, occs.take(i as int)).len() <= i,
            field_counts_of(field_counts) == labelled(
                l.definitions,
                index::counted(field_hits(hits(outdir@, l, occs.take(i as int)))),
            ),
            field_hits(hits(outdir@, l, occs.take(i as int))).len() <= i * usize::MAX,
        decreases occurrences@.len() - i,
    {
        let ghost o = walk::occurrence_model(occurrences@[i as int]);
        let ghost so_far = occs.take(i as int);
        let ghost next = occs.take(i + 1);
        let ghost done = hits(outdir@, l, so_far);
        proof {
            assert(next.drop_last() =~= so_far);
            assert(next.last() == o);
            assert(occs.take(occs.len() as int) =~= occs);
            lemma_fault_stays(outdir@, l, occs, i + 1);
            assert((i + 1) * usize::MAX == i * usize::MAX + usize::MAX) by (nonlinear_arith);
            assert(i * usize::MAX <= usize::MAX * usize::MAX) by (nonlinear_arith)
                requires
                    0 <= i <= usize::MAX,
            ;
            assert(usize::MAX * usize::MAX + usize::MAX < u128::MAX) by (nonlinear_arith)
                requires
                    usize::MAX <= 0xffff_ffff_ffff_ffff,
            ;
        }
        let found = match canonical_schema_path_for_occurrence(
            outdir,
            &occurrences[i],
            schema_paths,
            array_index_refs,
        ) {
            Ok(p) => p,
            Err(e) => {
                return Err(e);
            },
        };
        let schema = match definitions.get(found) {
            Some(s) => s,
            None => {
                return Err(StatisticsError::MissingSchema(found.clone()));
            },
        };
        assert(json::schema_model(schema@) == l.definitions[found@]);
        if !is_refs_mut_schema(schema) {
            assert(hits(outdir@, l, next) == done.push((found@, o.fields)));
            assert(hits(outdir@, l, next).drop_last() =~= done);
            bump(&mut object_counts, found.clone(), Ghost(done), Ghost(o.fields));
            let fields = &occurrences[i].value;
            let ghost names = hits_of_fields(found@, o.fields);
            let ghost earlier = field_hits(done);
            let mut j: usize = 0;
            proof {
                assert(o.fields.take(0) =~= Seq::empty());
                assert(earlier + names.take(0) =~= earlier);
            }
            while j < fields.len()
                invariant
                    o.fields == json::fields_model(fields@),
                    names == hits_of_fields(found@, o.fields),
                    l.definitions.contains_key(found@),
                    !index::is_container(l.definitions[found@]),
                    resolved(outdir@, l.paths, l.refs, o) == Ok::<_, Fault>(found@),
                    next.len() > 0,
                    next.last() == o,
                    statistics_fault(outdir@, l, next.drop_last()) is None,
                    statistics_fault(outdir@, l, next) is Some ==> statistics_fault(
                        outdir@,
                        l,
                        occs,
                    ) == statistics_fault(outdir@, l, next),
                    occs == walk::occurrences_model(occurrences@),
                    l == lookups(*definitions, *schema_paths, *array_index_refs),
                    json::schema_model(schema@) == l.definitions[found@],
                    unlabelled(l.definitions[found@], o.fields.take(j as int)) is None,
                    j <= fields@.len(),
                    earlier.len() <= i * usize::MAX,
                    i * usize::MAX + usize::MAX < u128::MAX,
                    field_counts.wf(),
                    field_counts_of(field_counts) == labelled(
                        l.definitions,
                        index::counted(earlier + names.take(j as int)),
                    ),
                decreases fields@.len() - j,
            {
                let ghost name = fields@[j as int].0@;
                proof {
                    assert(o.fields.take(j + 1).drop_last() =~= o.fields.take(j as int));
                    assert(o.fields.take(j + 1).last() == o.fields[j as int]);
                    assert(o.fields.take(o.fields.len() as int) =~= o.fields);
                    lemma_unlabelled_stays(l.definitions[found@], o.fields, j + 1);
                    assert(earlier + names.take(j + 1) =~= (earlier + names.take(j as int)).push(
                        names[j as int],
                    ));
                }
                match index::find_label(schema, &fields[j].0) {
                    Some(label) => {
                        bump_field(
                            &mut field_counts,
                            (found.clone(), fields[j].0.clone()),
                            label.clone(),
                            Ghost(earlier + names.take(j as int)),
                            Ghost(l.definitions),
                        );
                    },
                    None => {
                        return Err(
                            StatisticsError::MissingFieldType(found.clone(), fields[j].0.clone()),
                        );
                    },
                }
                j = j + 1;
            }
            assert(o.fields.take(o.fields.len() as int) =~= o.fields);
            assert(names.take(names.len() as int) =~= names);
        }
        i = i + 1;
    }
    assert(occs.take(occs.len() as int) =~= occs);
    Ok(Statistics { object_counts, field_counts })
}

proof fn lemma_fault_stays(
    outdir: Seq<char>,
    l: Lookups,
    occs: Seq<Occ<Seq<Seq<char>>>>,
    n: int,
)
    requires
        0 <= n <= occs.len(),
    ensures
        statistics_fault(outdir, l, occs.take(n)) is Some ==> statistics_fault(outdir, l, occs)
            == statistics_fault(outdir, l, occs.take(n)),
    decreases occs.len() - n,
{
    if n == occs.len() {
        assert(occs.take(n) =~= occs);
    } else {
        lemma_fault_stays(outdir, l, occs, n + 1);
        assert(occs.take(n + 1).drop_last() =~= occs.take(n));
    }
}

proof fn lemma_unlabelled_stays(
    schema: Seq<(Seq<char>, Seq<char>)>,
    fields: Seq<(Seq<char>, Json)>,
    n: int,
)
    requires
        0 <= n <= fields.len(),
    ensures
        unlabelled(schema, fields.take(n)) is Some ==> unlabelled(schema, fields) == unlabelled(
            schema,
            fields.take(n),
        ),
    decreases fields.len() - n,
{
    if n == fields.len() {
        assert(fields.take(n) =~= fields);
    } else {
        lemma_unlabelled_stays(schema, fields, n + 1);
        assert(fields.take(n + 1).drop_last() =~= fields.take(n));
    }
}

} // verus!
