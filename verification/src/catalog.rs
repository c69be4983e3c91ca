//! The whole index of an input: schemas, paths, positions, counts and relations.

use crate::index;
use crate::index::{array_index_refs_of, definitions_of, schema_paths_of};
use crate::json;
use crate::order;
use crate::ordmap::{Key, OrdMap};
use crate::records;
use crate::records::{copy_schema, Rec, Record};
use crate::relations;
use crate::relations::{write_schema_relations, Relation, SchemaRelation};
use crate::statistics;
use crate::statistics::{write_occurrence_statistics, Lookups, Statistics, StatisticsError};
use crate::stream;
use crate::streamed;
use crate::streamed::{records_of_tables, write_streamed_occurrence_statistics};
use crate::tables::Tables;
use crate::text;
use crate::walk;
use crate::walk::{Occ, Occurrence};
use vstd::prelude::*;

verus! {

/// Everything that is stored of an input. The records say which files and links there are.
pub struct Catalog {
    pub records: Vec<Record>,
    pub definitions: OrdMap<String, Vec<(String, String)>>,
    pub schema_paths: OrdMap<String, String>,
    pub array_index_refs: OrdMap<(String, Vec<usize>), String>,
    pub statistics: Statistics,
    pub relations: Vec<SchemaRelation>,
}

/// What is stored: the schema of each schema path, the schema path of each object path and of
/// each item position, the counts of objects and fields, and the relations.
pub ghost struct Stored {
    pub definitions: Map<Seq<char>, Seq<(Seq<char>, Seq<char>)>>,
    pub paths: Map<Seq<char>, Seq<char>>,
    pub refs: Map<(Seq<char>, Seq<nat>), Seq<char>>,
    pub objects: Map<Seq<char>, nat>,
    pub fields: Map<(Seq<char>, Seq<char>), (Seq<char>, nat)>,
    pub relations: Seq<Relation>,
}

impl Catalog {
    pub open spec fn wf(self) -> bool {
        &&& self.definitions.wf()
        &&& self.schema_paths.wf()
        &&& self.array_index_refs.wf()
        &&& self.statistics.object_counts.wf()
        &&& self.statistics.field_counts.wf()
    }

    pub open spec fn stored(self) -> Stored {
        Stored {
            definitions: index::schemas_of(self.definitions),
            paths: index::texts_of(self.schema_paths),
            refs: index::texts_of(self.array_index_refs),
            objects: statistics::counts_of(self.statistics.object_counts),
            fields: statistics::field_counts_of(self.statistics.field_counts),
            relations: relations::relations_model(self.relations@),
        }
    }
}

pub open spec fn lookups_of(recs: Seq<Rec>) -> Lookups {
    Lookups {
        definitions: index::last_wins(index::definition_pairs(recs)),
        paths: index::last_wins(index::path_pairs(recs)),
        refs: index::last_wins(index::ref_pairs(recs)),
    }
}

/// What is stored of records and of the occurrences that they were made from.
pub open spec fn stored_of(
    outdir: Seq<char>,
    recs: Seq<Rec>,
    occs: Seq<Occ<Seq<Seq<char>>>>,
) -> Stored {
    let l = lookups_of(recs);
    let objects = index::counted(statistics::hits(outdir, l, occs));
    let fields = statistics::labelled(
        l.definitions,
        index::counted(statistics::field_hits(statistics::hits(outdir, l, occs))),
    );
    Stored {
        definitions: l.definitions,
        paths: l.paths,
        refs: l.refs,
        objects,
        fields,
        relations: relations::unique_rows(
            relations::relations(relations::context(recs, objects, fields), recs),
        ),
    }
}

/// Makes the index of records and of the occurrences that they were made from.
pub fn index_records(outdir: &str, records: Vec<Record>, occurrences: &Vec<Occurrence>) -> (r: Result<
    Catalog,
    StatisticsError,
>)
    ensures
        ({
            let recs = records::records_model(records@);
            let occs = walk::occurrences_model(occurrences@);
            let fault = statistics::statistics_fault(outdir@, lookups_of(recs), occs);
            match r {
                Ok(c) => fault is None && c.wf() && c.records == records && c.stored()
                    == stored_of(outdir@, recs, occs),
                Err(e) => fault == Some(statistics::error_model(e)),
            }
        }),
{
    let definitions = definitions_of(&records);
    let schema_paths = schema_paths_of(&records);
    let array_index_refs = array_index_refs_of(&records);
    let statistics = match write_occurrence_statistics(
        outdir,
        &definitions,
        &schema_paths,
        &array_index_refs,
        occurrences,
    ) {
        Ok(s) => s,
        Err(e) => {
            return Err(e);
        },
    };
    let relations = write_schema_relations(&records, &statistics);
    Ok(
        Catalog {
            records,
            definitions,
            schema_paths,
            array_index_refs,
            statistics,
            relations,
        },
    )
}

/// The schema paths of item positions with the array path of each, in ascending order of the
/// positions.
pub open spec fn parent_pairs(recs: Seq<Rec>) -> Seq<(Seq<char>, Seq<char>)> {
    let keys = order::sorted_set(order::firsts(index::ref_pairs(recs)));
    let refs = index::last_wins(index::ref_pairs(recs));
    Seq::new(keys.len(), |i: int| (refs[keys[i]], keys[i].0))
}

/// The smallest path of an array with items of the schema `p`.
pub open spec fn array_parent(recs: Seq<Rec>, p: Seq<char>) -> Option<Seq<char>> {
    let found = order::under(parent_pairs(recs), p);
    if found.len() > 0 {
        Some(found[0])
    } else {
        None
    }
}

/// The stored schemas as records, in ascending order of their paths.
pub open spec fn stored_records(recs: Seq<Rec>) -> Seq<Rec> {
    let paths = order::sorted_set(order::firsts(index::definition_pairs(recs)));
    Seq::new(
        paths.len(),
        |i: int|
            Rec {
                schema_path: paths[i],
                object_paths: Seq::empty(),
                schema: index::last_wins(index::definition_pairs(recs))[paths[i]],
                array_parent: array_parent(recs, paths[i]),
                index_paths: Seq::empty(),
            },
    )
}

/// What is stored of streamed objects.
pub open spec fn stored_of_tables(t: Tables<String, String>) -> Stored {
    let recs = streamed::streamed_records(t);
    let l = lookups_of(recs);
    let c = streamed::stream_context(t, recs);
    let objects = streamed::streamed_objects(c);
    let fields = streamed::typed(c.types, streamed::summed(streamed::streamed_field_adds(c)));
    Stored {
        definitions: l.definitions,
        paths: l.paths,
        refs: l.refs,
        objects,
        fields,
        relations: relations::unique_rows(
            relations::relations(
                relations::context(stored_records(recs), objects, fields),
                stored_records(recs),
            ),
        ),
    }
}

/// The array path of every schema of items.
fn array_parents_of(
    array_index_refs: &OrdMap<(String, Vec<usize>), String>,
    Ghost(recs): Ghost<Seq<Rec>>,
) -> (r: OrdMap<String, String>)
    requires
        array_index_refs.wf(),
        index::texts_of(*array_index_refs) == index::last_wins(index::ref_pairs(recs)),
    ensures
        r.wf(),
        forall|p: Seq<char>| #[trigger]
            r.map().contains_key(p) <==> array_parent(recs, p) is Some,
        forall|p: Seq<char>| #[trigger]
            r.map().contains_key(p) ==> array_parent(recs, p) == Some(r.map()[p]@),
{
    let rows = &array_index_refs.entries;
    let ghost keys = array_index_refs.keys();
    let ghost pairs = parent_pairs(recs);
    proof {
        let texts = index::texts_of(*array_index_refs);
        assert(texts.dom() =~= array_index_refs.map().dom());
        assert forall|k: (Seq<char>, Seq<nat>)| #[trigger]
            array_index_refs.map().contains_key(k) <==> order::firsts(
                index::ref_pairs(recs),
            ).contains(k) by {
            stream::lemma_last_wins_under(index::ref_pairs(recs), k);
            order::lemma_under_nonempty(index::ref_pairs(recs), k);
            assert(texts.contains_key(k) <==> array_index_refs.map().contains_key(k));
        }
        array_index_refs.lemma_keys(order::firsts(index::ref_pairs(recs)));
        assert(pairs.take(0) =~= Seq::empty());
    }
    let mut out: OrdMap<String, String> = OrdMap::new();
    let mut i: usize = 0;
    while i < rows.len()
        invariant
            array_index_refs.wf(),
            index::texts_of(*array_index_refs) == index::last_wins(index::ref_pairs(recs)),
            *rows == array_index_refs.entries,
            keys == array_index_refs.keys(),
            keys == order::sorted_set(order::firsts(index::ref_pairs(recs))),
            pairs == parent_pairs(recs),
            i <= rows@.len(),
            out.wf(),
            forall|p: Seq<char>| #[trigger]
                out.map().contains_key(p) <==> order::under(pairs.take(i as int), p).len() > 0,
            forall|p: Seq<char>| #[trigger]
                out.map().contains_key(p) ==> order::under(pairs.take(i as int), p)[0]
                    == out.map()[p]@,
        decreases rows@.len() - i,
    {
        let ghost p = rows@[i as int].1@;
        proof {
            assert(keys[i as int] == rows@[i as int].0.model());
            array_index_refs.lemma_entry(i as int);
            assert(index::texts_of(*array_index_refs)[keys[i as int]] == p);
            assert(pairs[i as int] == (p, rows@[i as int].0.0@));
            assert(pairs.take(i + 1).drop_last() =~= pairs.take(i as int));
            assert(pairs.take(i + 1).last() == pairs[i as int]);
        }
        if out.get(&rows[i].1).is_none() {
            out.insert(rows[i].1.clone(), rows[i].0.0.clone());
        }
        i = i + 1;
    }
    assert(pairs.take(pairs.len() as int) =~= pairs);
    out
}

/// The stored schemas as records.
fn records_of_index(
    definitions: &OrdMap<String, Vec<(String, String)>>,
    parents: &OrdMap<String, String>,
    Ghost(recs): Ghost<Seq<Rec>>,
) -> (r: Vec<Record>)
    requires
        definitions.wf(),
        parents.wf(),
        index::schemas_of(*definitions) == index::last_wins(index::definition_pairs(recs)),
        forall|p: Seq<char>| #[trigger]
            parents.map().contains_key(p) <==> array_parent(recs, p) is Some,
        forall|p: Seq<char>| #[trigger]
            parents.map().contains_key(p) ==> array_parent(recs, p) == Some(parents.map()[p]@),
    ensures
        records::records_model(r@) == stored_records(recs),
{
    let rows = &definitions.entries;
    let ghost keys = definitions.keys();
    let ghost target = stored_records(recs);
    proof {
        assert forall|k: Seq<char>| #[trigger] definitions.map().contains_key(k) <==> order::firsts(
            index::definition_pairs(recs),
        ).contains(k) by {
            stream::lemma_last_wins_under(index::definition_pairs(recs), k);
            order::lemma_under_nonempty(index::definition_pairs(recs), k);
            assert(index::schemas_of(*definitions).contains_key(k)
                <==> definitions.map().contains_key(k));
        }
        definitions.lemma_keys(order::firsts(index::definition_pairs(recs)));
    }
    let mut out: Vec<Record> = Vec::new();
    let mut i: usize = 0;
    while i < rows.len()
        invariant
            definitions.wf(),
            parents.wf(),
            index::schemas_of(*definitions) == index::last_wins(index::definition_pairs(recs)),
            forall|p: Seq<char>| #[trigger]
                parents.map().contains_key(p) <==> array_parent(recs, p) is Some,
            forall|p: Seq<char>| #[trigger]
                parents.map().contains_key(p) ==> array_parent(recs, p) == Some(parents.map()[p]@),
            *rows == definitions.entries,
            keys == definitions.keys(),
            keys == order::sorted_set(order::firsts(index::definition_pairs(recs))),
            target == stored_records(recs),
            i <= rows@.len(),
            out@.len() == i,
            forall|j: int|
                0 <= j < i ==> records::record_model(#[trigger] out@[j]) == target[j],
        decreases rows@.len() - i,
    {
        proof {
            assert(keys[i as int] == rows@[i as int].0@);
            definitions.lemma_entry(i as int);
            assert(index::schemas_of(*definitions)[keys[i as int]] == json::schema_model(
                rows@[i as int].1@,
            ));
        }
        let array_parent = match parents.get(&rows[i].0) {
            Some(p) => Some(p.clone()),
            None => None,
        };
        let record = Record {
            schema_path: rows[i].0.clone(),
            object_paths: Vec::new(),
            schema: copy_schema(&rows[i].1),
            array_parent,
            array_index_paths: Vec::new(),
        };
        proof {
            assert(text::models(record.object_paths@) =~= Seq::<Seq<char>>::empty());
            assert(text::models(record.array_index_paths@) =~= Seq::<Seq<nat>>::empty());
        }
        out.push(record);
        i = i + 1;
    }
    assert(records::records_model(out@) =~= target);
    out
}

/// Makes the index of streamed objects from the tables of their facts.
pub fn finalize_streamed_jsonl(t: &Tables<String, String>) -> (r: Catalog)
    requires
        t.wf(),
    ensures
        r.wf(),
        records::records_model(r.records@) == streamed::streamed_records(*t),
        r.stored() == stored_of_tables(*t),
{
    let records = records_of_tables(t);
    let ghost recs = records::records_model(records@);
    let definitions = definitions_of(&records);
    let schema_paths = schema_paths_of(&records);
    let array_index_refs = array_index_refs_of(&records);
    let statistics = write_streamed_occurrence_statistics(t, &records);
    let parents = array_parents_of(&array_index_refs, Ghost(recs));
    let stored = records_of_index(&definitions, &parents, Ghost(recs));
    let relations = write_schema_relations(&stored, &statistics);
    Catalog { records, definitions, schema_paths, array_index_refs, statistics, relations }
}

} // verus!
