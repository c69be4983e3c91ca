//! The index of schemas: which schema describes which object, and how often.

use crate::json;
use crate::order;
use crate::ordmap;
use crate::ordmap::{from_pairs, Key, OrdMap};
use crate::records;
use crate::records::{copy_schema, Rec, Record};
use crate::text;
use crate::text::same_text;
use crate::walk::copy_indexes;
use vstd::prelude::*;

verus! {

/// The map of the pairs; where a first component occurs again, the last pair stays.
pub open spec fn last_wins<K, V>(pairs: Seq<(K, V)>) -> Map<K, V>
    decreases pairs.len(),
{
    if pairs.len() == 0 {
        Map::empty()
    } else {
        last_wins(pairs.drop_last()).insert(pairs.last().0, pairs.last().1)
    }
}

/// How often each first component occurs.
pub open spec fn counted<K, V>(pairs: Seq<(K, V)>) -> Map<K, nat> {
    Map::new(
        |k: K| order::firsts(pairs).contains(k),
        |k: K| order::under(pairs, k).len(),
    )
}

/// A schema that refers to the schemas of the items of an array.
pub open spec fn is_container(schema: Seq<(Seq<char>, Seq<char>)>) -> bool {
    schema.len() == 1 && schema[0].0 == "$refs_mut"@
}

pub open spec fn kind_of_schema(schema: Seq<(Seq<char>, Seq<char>)>) -> Seq<char> {
    if is_container(schema) {
        "heterogeneous"@
    } else {
        "object"@
    }
}

/// The label of the first field named `name`.
pub open spec fn label_in(schema: Seq<(Seq<char>, Seq<char>)>, name: Seq<char>) -> Option<Seq<char>> {
    if order::under(schema, name).len() > 0 {
        Some(order::under(schema, name)[0])
    } else {
        None
    }
}

pub fn is_refs_mut_schema(schema: &Vec<(String, String)>) -> (r: bool)
    ensures
        r == is_container(json::schema_model(schema@)),
{
    schema.len() == 1 && same_text(schema[0].0.as_str(), "$refs_mut")
}

pub fn schema_kind(schema: &Vec<(String, String)>) -> (r: &'static str)
    ensures
        r@ == kind_of_schema(json::schema_model(schema@)),
{
    if is_refs_mut_schema(schema) {
        "heterogeneous"
    } else {
        "object"
    }
}

pub(crate) fn find_label<'a>(schema: &'a Vec<(String, String)>, name: &String) -> (r: Option<&'a String>)
    ensures
        r is Some <==> label_in(json::schema_model(schema@), name@) is Some,
        r matches Some(label) ==> Some(label@) == label_in(json::schema_model(schema@), name@),
{
    let ghost all = json::schema_model(schema@);
    let mut found: Option<&'a String> = None;
    let mut i: usize = 0;
    assert(all.take(0) =~= Seq::empty());
    while i < schema.len()
        invariant
            all == json::schema_model(schema@),
            i <= schema@.len(),
            found is Some <==> order::under(all.take(i as int), name@).len() > 0,
            found matches Some(label) ==> label@ == order::under(all.take(i as int), name@)[0],
        decreases schema@.len() - i,
    {
        assert(all.take(i + 1).drop_last() =~= all.take(i as int));
        assert(all.take(i + 1).last() == all[i as int]);
        if same_text(schema[i].0.as_str(), name.as_str()) && found.is_none() {
            found = Some(&schema[i].1);
        }
        i = i + 1;
    }
    assert(all.take(all.len() as int) =~= all);
    found
}

/// The schema paths with their schemas.
pub open spec fn definition_pairs(recs: Seq<Rec>) -> Seq<
    (Seq<char>, Seq<(Seq<char>, Seq<char>)>),
> {
    Seq::new(recs.len(), |i: int| (recs[i].schema_path, recs[i].schema))
}

/// The object paths of one record with its schema path.
pub open spec fn paths_of(rec: Rec) -> Seq<(Seq<char>, Seq<char>)> {
    Seq::new(rec.object_paths.len(), |i: int| (rec.object_paths[i], rec.schema_path))
}

/// The object paths with their schema paths.
pub open spec fn path_pairs(recs: Seq<Rec>) -> Seq<(Seq<char>, Seq<char>)>
    decreases recs.len(),
{
    if recs.len() == 0 {
        Seq::empty()
    } else {
        path_pairs(recs.drop_last()) + paths_of(recs.last())
    }
}

/// The positions of one record's items with its schema path.
pub open spec fn refs_of(rec: Rec) -> Seq<((Seq<char>, Seq<nat>), Seq<char>)> {
    match rec.array_parent {
        None => Seq::empty(),
        Some(parent) => Seq::new(
            rec.index_paths.len(),
            |i: int| ((parent, rec.index_paths[i]), rec.schema_path),
        ),
    }
}

/// The positions of items, each in its array, with their schema paths.
pub open spec fn ref_pairs(recs: Seq<Rec>) -> Seq<((Seq<char>, Seq<nat>), Seq<char>)>
    decreases recs.len(),
{
    if recs.len() == 0 {
        Seq::empty()
    } else {
        ref_pairs(recs.drop_last()) + refs_of(recs.last())
    }
}

pub open spec fn texts_of<K: Key>(m: OrdMap<K, String>) -> Map<K::Model, Seq<char>> {
    m.map().map_values(|t: String| t@)
}

pub open spec fn schemas_of(m: OrdMap<String, Vec<(String, String)>>) -> Map<
    Seq<char>,
    Seq<(Seq<char>, Seq<char>)>,
> {
    m.map().map_values(|s: Vec<(String, String)>| json::schema_model(s@))
}

pub proof fn lemma_last_wins_push<K, V>(a: Seq<(K, V)>, b: Seq<(K, V)>, n: int)
    requires
        0 <= n < b.len(),
    ensures
        last_wins(a + b.take(n + 1)) == last_wins(a + b.take(n)).insert(b[n].0, b[n].1),
{
    assert((a + b.take(n + 1)).drop_last() =~= a + b.take(n));
    assert((a + b.take(n + 1)).last() == b[n]);
}

/// The pairs of keys and texts.
pub open spec fn text_pairs<K: Key>(pairs: Seq<(K, String)>) -> Seq<(K::Model, Seq<char>)> {
    Seq::new(pairs.len(), |i: int| (pairs[i].0.model(), pairs[i].1@))
}

proof fn lemma_last_text<K: Key>(pairs: Seq<(K, String)>)
    ensures
        last_wins(ordmap::pair_models(pairs)).map_values(|t: String| t@) == last_wins(
            text_pairs(pairs),
        ),
    decreases pairs.len(),
{
    let f = |t: String| t@;
    let a = ordmap::pair_models(pairs);
    let b = text_pairs(pairs);
    if pairs.len() > 0 {
        lemma_last_text(pairs.drop_last());
        assert(a.drop_last() =~= ordmap::pair_models(pairs.drop_last()));
        assert(b.drop_last() =~= text_pairs(pairs.drop_last()));
    }
    assert(last_wins(a).map_values(f) =~= last_wins(b));
}

/// The map of the pairs; where a key occurs again, the last text stays.
pub(crate) fn texts_from_pairs<K: Key>(pairs: Vec<(K, String)>) -> (r: OrdMap<K, String>)
    ensures
        r.wf(),
        texts_of(r) == last_wins(text_pairs(pairs@)),
{
    proof {
        lemma_last_text(pairs@);
    }
    from_pairs(pairs)
}

pub(crate) fn put_text<K: Key>(m: &mut OrdMap<K, String>, key: K, value: String)
    requires
        old(m).wf(),
    ensures
        final(m).wf(),
        texts_of(*final(m)) == texts_of(*old(m)).insert(key.model(), value@),
{
    let ghost before = *m;
    m.insert(key, value);
    assert(texts_of(*m) =~= texts_of(before).insert(key.model(), value@));
}

/// The schema of every schema path.
pub fn definitions_of(records: &Vec<Record>) -> (r: OrdMap<String, Vec<(String, String)>>)
    ensures
        r.wf(),
        schemas_of(r) == last_wins(definition_pairs(records::records_model(records@))),
{
    let ghost pairs = definition_pairs(records::records_model(records@));
    let mut m: OrdMap<String, Vec<(String, String)>> = OrdMap::new();
    let mut i: usize = 0;
    assert(pairs.take(0) =~= Seq::empty());
    assert(schemas_of(m) =~= Map::empty());
    while i < records.len()
        invariant
            pairs == definition_pairs(records::records_model(records@)),
            i <= records@.len(),
            m.wf(),
            schemas_of(m) == last_wins(pairs.take(i as int)),
        decreases records@.len() - i,
    {
        assert(pairs.take(i + 1).drop_last() =~= pairs.take(i as int));
        assert(pairs.take(i + 1).last() == pairs[i as int]);
        let ghost before = m;
        m.insert(records[i].schema_path.clone(), copy_schema(&records[i].schema));
        assert(schemas_of(m) =~= schemas_of(before).insert(pairs[i as int].0, pairs[i as int].1));
        i = i + 1;
    }
    assert(pairs.take(pairs.len() as int) =~= pairs);
    m
}

/// The schema path of every object path.
pub fn schema_paths_of(records: &Vec<Record>) -> (r: OrdMap<String, String>)
    ensures
        r.wf(),
        texts_of(r) == last_wins(path_pairs(records::records_model(records@))),
{
    let ghost recs = records::records_model(records@);
    let mut pairs: Vec<(String, String)> = Vec::new();
    let mut i: usize = 0;
    assert(recs.take(0) =~= Seq::empty());
    assert(text_pairs(pairs@) =~= Seq::empty());
    while i < records.len()
        invariant
            recs == records::records_model(records@),
            i <= records@.len(),
            text_pairs(pairs@) == path_pairs(recs.take(i as int)),
        decreases records@.len() - i,
    {
        assert(recs.take(i + 1).drop_last() =~= recs.take(i as int));
        assert(recs.take(i + 1).last() == records::record_model(records@[i as int]));
        let ghost so_far = path_pairs(recs.take(i as int));
        let ghost more = paths_of(recs[i as int]);
        let paths = &records[i].object_paths;
        let mut j: usize = 0;
        assert(so_far + more.take(0) =~= so_far);
        while j < paths.len()
            invariant
                0 <= i < records@.len(),
                *paths == records@[i as int].object_paths,
                more == paths_of(records::record_model(records@[i as int])),
                j <= paths@.len(),
                text_pairs(pairs@) == so_far + more.take(j as int),
            decreases paths@.len() - j,
        {
            let ghost before = pairs@;
            pairs.push((paths[j].clone(), records[i].schema_path.clone()));
            assert(text_pairs(pairs@) =~= text_pairs(before).push(more[j as int]));
            assert(text_pairs(pairs@) =~= so_far + more.take(j + 1));
            j = j + 1;
        }
        assert(more.take(more.len() as int) =~= more);
        i = i + 1;
    }
    assert(recs.take(recs.len() as int) =~= recs);
    texts_from_pairs(pairs)
}

/// The schema path of every item position.
pub fn array_index_refs_of(records: &Vec<Record>) -> (r: OrdMap<(String, Vec<usize>), String>)
    ensures
        r.wf(),
        texts_of(r) == last_wins(ref_pairs(records::records_model(records@))),
{
    let ghost recs = records::records_model(records@);
    let mut pairs: Vec<((String, Vec<usize>), String)> = Vec::new();
    let mut i: usize = 0;
    assert(recs.take(0) =~= Seq::empty());
    assert(text_pairs(pairs@) =~= Seq::empty());
    while i < records.len()
        invariant
            recs == records::records_model(records@),
            i <= records@.len(),
            text_pairs(pairs@) == ref_pairs(recs.take(i as int)),
        decreases records@.len() - i,
    {
        assert(recs.take(i + 1).drop_last() =~= recs.take(i as int));
        assert(recs.take(i + 1).last() == records::record_model(records@[i as int]));
        let ghost so_far = ref_pairs(recs.take(i as int));
        let ghost more = refs_of(recs[i as int]);
        assert(so_far + more.take(0) =~= so_far);
        if let Some(parent) = &records[i].array_parent {
            let index_paths = &records[i].array_index_paths;
            let mut j: usize = 0;
            while j < index_paths.len()
                invariant
                    0 <= i < records@.len(),
                    *index_paths == records@[i as int].array_index_paths,
                    records@[i as int].array_parent == Some(*parent),
                    more == refs_of(records::record_model(records@[i as int])),
                    j <= index_paths@.len(),
                    text_pairs(pairs@) == so_far + more.take(j as int),
                decreases index_paths@.len() - j,
            {
                let ghost before = pairs@;
                pairs.push(
                    (
                        (parent.clone(), copy_indexes(&index_paths[j])),
                        records[i].schema_path.clone(),
                    ),
                );
                proof {
                    assert(more[j as int].0 == (parent@, text::models(index_paths@[j as int]@)));
                    assert(text_pairs(pairs@) =~= text_pairs(before).push(more[j as int]));
                    assert(text_pairs(pairs@) =~= so_far + more.take(j + 1));
                }
                j = j + 1;
            }
        }
        assert(more.take(more.len() as int) =~= more);
        i = i + 1;
    }
    assert(recs.take(recs.len() as int) =~= recs);
    texts_from_pairs(pairs)
}

} // verus!
