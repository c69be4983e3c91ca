//! JSON values: the ghost model, the executable form, reading and writing.

use crate::order;
use crate::quoted;
use vstd::prelude::*;

verus! {

/// A JSON value. Numbers are kept by their text, the fields of an object as a list.
pub enum Json {
    Null,
    Bool(bool),
    Number(Seq<char>),
    Text(Seq<char>),
    Array(Seq<Json>),
    Object(Seq<(Seq<char>, Json)>),
}

/// The executable form of [`Json`].
#[derive(Debug, PartialEq, Eq)]
pub enum JsonValue {
    Null,
    Bool(bool),
    Number(String),
    Text(String),
    Array(Vec<JsonValue>),
    Object(Vec<(String, JsonValue)>),
}

/// What a value stands for.
pub open spec fn model(v: JsonValue) -> Json
    decreases v,
{
    match v {
        JsonValue::Null => Json::Null,
        JsonValue::Bool(b) => Json::Bool(b),
        JsonValue::Number(t) => Json::Number(t@),
        JsonValue::Text(t) => Json::Text(t@),
        JsonValue::Array(items) => Json::Array(
            Seq::new(
                items@.len(),
                |i: int|
                    if 0 <= i < items@.len() {
                        model(items@[i])
                    } else {
                        arbitrary()
                    },
            ),
        ),
        JsonValue::Object(fields) => Json::Object(
            Seq::new(
                fields@.len(),
                |i: int|
                    if 0 <= i < fields@.len() {
                        (fields@[i].0@, model(fields@[i].1))
                    } else {
                        arbitrary()
                    },
            ),
        ),
    }
}

pub open spec fn items_model(items: Seq<JsonValue>) -> Seq<Json> {
    Seq::new(items.len(), |i: int| model(items[i]))
}

pub open spec fn fields_model(fields: Seq<(String, JsonValue)>) -> Seq<(Seq<char>, Json)> {
    Seq::new(fields.len(), |i: int| (fields[i].0@, model(fields[i].1)))
}

pub proof fn lemma_model_array(items: Vec<JsonValue>)
    ensures
        model(JsonValue::Array(items)) == Json::Array(items_model(items@)),
{
    assert(model(JsonValue::Array(items))->Array_0 =~= items_model(items@));
}

pub proof fn lemma_model_object(fields: Vec<(String, JsonValue)>)
    ensures
        model(JsonValue::Object(fields)) == Json::Object(fields_model(fields@)),
{
    assert(model(JsonValue::Object(fields))->Object_0 =~= fields_model(fields@));
}

/// The names of the fields, in their order.
pub open spec fn names(fields: Seq<(Seq<char>, Json)>) -> Seq<Seq<char>> {
    Seq::new(fields.len(), |i: int| fields[i].0)
}

/// Every object, at any depth, holds its fields in ascending order of their names, each
/// name once.
pub open spec fn tidy(j: Json) -> bool
    decreases j,
{
    match j {
        Json::Array(items) => forall|i: int| 0 <= i < items.len() ==> tidy(#[trigger] items[i]),
        Json::Object(fields) => order::ascending(names(fields)) && forall|i: int|
            0 <= i < fields.len() ==> tidy((#[trigger] fields[i]).1),
        _ => true,
    }
}

pub proof fn lemma_tidy_items(items: Seq<Json>)
    ensures
        tidy(Json::Array(items)) <==> forall|i: int|
            0 <= i < items.len() ==> tidy(#[trigger] items[i]),
{
    let whole = Json::Array(items);
    assert(whole->Array_0 == items);
    if tidy(whole) {
        assert forall|i: int| 0 <= i < items.len() implies tidy(#[trigger] items[i]) by {
            assert(tidy(whole->Array_0[i]));
        }
    }
}

pub open spec fn tidy_fields(fields: Seq<(Seq<char>, Json)>) -> bool {
    tidy(Json::Object(fields))
}

/// The value of the first field named `key`.
pub open spec fn lookup(fields: Seq<(Seq<char>, Json)>, key: Seq<char>) -> Option<Json>
    decreases fields.len(),
{
    if fields.len() == 0 {
        None
    } else if fields[0].0 == key {
        Some(fields[0].1)
    } else {
        lookup(fields.drop_first(), key)
    }
}

pub proof fn lemma_lookup_some(fields: Seq<(Seq<char>, Json)>, key: Seq<char>)
    ensures
        lookup(fields, key) is Some <==> names(fields).contains(key),
    decreases fields.len(),
{
    if fields.len() > 0 {
        lemma_lookup_some(fields.drop_first(), key);
        let rest = names(fields.drop_first());
        if rest.contains(key) {
            let i = choose|i: int| 0 <= i < rest.len() && rest[i] == key;
            assert(names(fields)[i + 1] == key);
        }
        if names(fields).contains(key) {
            let i = choose|i: int| 0 <= i < fields.len() && names(fields)[i] == key;
            if i > 0 {
                assert(rest[i - 1] == key);
            }
        }
        assert(names(fields)[0] == fields[0].0);
    }
}

/// In a list without repeated names every field is found under its name.
pub proof fn lemma_lookup_at(fields: Seq<(Seq<char>, Json)>, i: int)
    requires
        order::ascending(names(fields)),
        0 <= i < fields.len(),
    ensures
        lookup(fields, fields[i].0) == Some(fields[i].1),
    decreases fields.len(),
{
    if i > 0 {
        order::lemma_before_excludes(names(fields)[0], names(fields)[i]);
        let rest = fields.drop_first();
        assert forall|a: int, b: int| 0 <= a < b < rest.len() implies
            order::Ordered::before(#[trigger] names(rest)[a], #[trigger] names(rest)[b]) by {
            assert(names(rest)[a] == names(fields)[a + 1]);
            assert(names(rest)[b] == names(fields)[b + 1]);
        }
        lemma_lookup_at(rest, i - 1);
    }
}

/// The first field named `key`.
pub fn get_field<'a>(fields: &'a Vec<(String, JsonValue)>, key: &str) -> (r: Option<&'a JsonValue>)
    ensures
        r is Some <==> lookup(fields_model(fields@), key@) is Some,
        r matches Some(v) ==> Some(model(*v)) == lookup(fields_model(fields@), key@),
{
    let ghost all = fields_model(fields@);
    let mut i: usize = 0;
    assert(all.skip(0) =~= all);
    while i < fields.len()
        invariant
            all == fields_model(fields@),
            i <= fields@.len(),
            lookup(all, key@) == lookup(all.skip(i as int), key@),
        decreases fields@.len() - i,
    {
        assert(all.skip(i as int).drop_first() =~= all.skip(i + 1));
        assert(all.skip(i as int)[0] == all[i as int]);
        if crate::text::same_text(fields[i].0.as_str(), key) {
            return Some(&fields[i].1);
        }
        i = i + 1;
    }
    None
}

impl JsonValue {
    /// A copy of the value.
    pub fn copy(&self) -> (r: JsonValue)
        ensures
            model(r) == model(*self),
        decreases self,
    {
        match self {
            JsonValue::Null => JsonValue::Null,
            JsonValue::Bool(b) => JsonValue::Bool(*b),
            JsonValue::Number(t) => JsonValue::Number(t.clone()),
            JsonValue::Text(t) => JsonValue::Text(t.clone()),
            JsonValue::Array(items) => {
                let r = copy_items(items);
                proof {
                    lemma_model_array(*items);
                    lemma_model_array(r);
                }
                JsonValue::Array(r)
            },
            JsonValue::Object(fields) => {
                let r = copy_fields(fields);
                proof {
                    lemma_model_object(*fields);
                    lemma_model_object(r);
                }
                JsonValue::Object(r)
            },
        }
    }
}

pub fn copy_items(items: &Vec<JsonValue>) -> (r: Vec<JsonValue>)
    ensures
        items_model(r@) == items_model(items@),
    decreases items,
{
    let mut out: Vec<JsonValue> = Vec::new();
    let mut i: usize = 0;
    while i < items.len()
        invariant
            i <= items@.len(),
            out@.len() == i,
            forall|j: int| 0 <= j < i ==> model(#[trigger] out@[j]) == model(items@[j]),
        decreases items@.len() - i,
    {
        out.push(items[i].copy());
        i = i + 1;
    }
    assert(items_model(out@) =~= items_model(items@));
    out
}

pub fn copy_fields(fields: &Vec<(String, JsonValue)>) -> (r: Vec<(String, JsonValue)>)
    ensures
        fields_model(r@) == fields_model(fields@),
    decreases fields,
{
    let mut out: Vec<(String, JsonValue)> = Vec::new();
    let mut i: usize = 0;
    while i < fields.len()
        invariant
            i <= fields@.len(),
            out@.len() == i,
            forall|j: int|
                0 <= j < i ==> (#[trigger] out@[j]).0@ == fields@[j].0@ && model(out@[j].1)
                    == model(fields@[j].1),
        decreases fields@.len() - i,
    {
        out.push((fields[i].0.clone(), fields[i].1.copy()));
        i = i + 1;
    }
    assert(fields_model(out@) =~= fields_model(fields@));
    out
}

/// A JSON value as the parser holds it.
#[verifier::external_type_specification]
#[verifier::external_body]
pub struct ExValue(serde_json::Value);

/// The JSON value that a parsed value holds.
pub uninterp spec fn parsed(v: serde_json::Value) -> Json;

/// What a text reads as: the values in it one after the other, and an error where something
/// else stands. An error says whether the text ended too early, and its message.
pub uninterp spec fn json_values(text: Seq<char>) -> Seq<Result<Json, (bool, Seq<char>)>>;

/// The outermost layer of a value.
enum Layer {
    Null,
    Bool(bool),
    Number(String),
    Text(String),
    Array(Vec<serde_json::Value>),
    Object(Vec<(String, serde_json::Value)>),
}

spec fn layer_model(layer: Layer) -> Json {
    match layer {
        Layer::Null => Json::Null,
        Layer::Bool(b) => Json::Bool(b),
        Layer::Number(t) => Json::Number(t@),
        Layer::Text(t) => Json::Text(t@),
        Layer::Array(items) => Json::Array(Seq::new(items@.len(), |i: int| parsed(items@[i]))),
        Layer::Object(fields) => Json::Object(
            Seq::new(fields@.len(), |i: int| (fields@[i].0@, parsed(fields@[i].1))),
        ),
    }
}

/// Takes one layer off a `serde_json::Value`, by its variants. A number is given by what its
/// `Display` writes. An object is a `serde_json::Map`, which is a `BTreeMap` over `String`
/// unless the crate's `preserve_order` feature is on (it is off here): its `into_iter` hands
/// the fields out in ascending order of their names, each name once.
#[verifier::external_body]
fn unfold(v: serde_json::Value) -> (r: Layer)
    ensures
        layer_model(r) == parsed(v),
        r matches Layer::Object(fields) ==> order::ascending(
            Seq::new(fields@.len(), |i: int| fields@[i].0@),
        ),
{
    match v {
        serde_json::Value::Null => Layer::Null,
        serde_json::Value::Bool(b) => Layer::Bool(b),
        serde_json::Value::Number(n) => Layer::Number(n.to_string()),
        serde_json::Value::String(t) => Layer::Text(t),
        serde_json::Value::Array(items) => Layer::Array(items),
        serde_json::Value::Object(map) => Layer::Object(map.into_iter().collect()),
    }
}

/// What the parser handed out for a text.
pub open spec fn read_model(
    values: Seq<Result<serde_json::Value, (bool, String)>>,
) -> Seq<Result<Json, (bool, Seq<char>)>> {
    Seq::new(
        values.len(),
        |i: int|
            match values[i] {
                Ok(v) => Ok(parsed(v)),
                Err(e) => Err((e.0, e.1@)),
            },
    )
}

/// The characters that JSON has between values.
pub open spec fn is_space(t: Seq<char>) -> bool {
    forall|i: int|
        0 <= i < t.len() ==> (#[trigger] t[i] == ' ' || t[i] == '\n' || t[i] == '\t' || t[i]
            == '\r')
}

/// Space at the end of the text does not change its values, if it has no error.
pub open spec fn ends_freely(t: Seq<char>) -> bool {
    first_fault(json_values(t)) is None ==> forall|end: Seq<char>|
        is_space(end) ==> #[trigger] json_values(t + end) == json_values(t)
}

/// Reads a text with `serde_json::Deserializer::from_str` and its `into_iter`, which yields
/// the values of the text and the errors that it meets. An error is given by its `is_eof` and
/// by what its `Display` writes. Space ends a value as the end of the text does, and is
/// skipped: at the end of a text without errors it changes nothing.
#[verifier::external_body]
fn read_values(text: &str) -> (r: Vec<Result<serde_json::Value, (bool, String)>>)
    ensures
        read_model(r@) == json_values(text@),
        first_fault(read_model(r@)) is None ==> forall|end: Seq<char>|
            is_space(end) ==> #[trigger] json_values(text@ + end) == read_model(r@),
{
    serde_json::Deserializer::from_str(text)
        .into_iter::<serde_json::Value>()
        .map(|item| item.map_err(|error| (error.is_eof(), error.to_string())))
        .collect()
}

fn convert(v: serde_json::Value) -> (r: JsonValue)
    ensures
        model(r) == parsed(v),
        tidy(model(r)),
    decreases parsed(v),
{
    match unfold(v) {
        Layer::Null => JsonValue::Null,
        Layer::Bool(b) => JsonValue::Bool(b),
        Layer::Number(t) => JsonValue::Number(t),
        Layer::Text(t) => JsonValue::Text(t),
        Layer::Array(items) => {
            let ghost all = items@;
            let ghost whole = parsed(v)->Array_0;
            let mut out: Vec<JsonValue> = Vec::new();
            for item in it: items
                invariant
                    it.seq() == all,
                    parsed(v) == Json::Array(whole),
                    whole == Seq::new(all.len(), |i: int| parsed(all[i])),
                    out@.len() == it.index(),
                    forall|j: int|
                        0 <= j < out@.len() ==> model(#[trigger] out@[j]) == parsed(all[j]) && tidy(
                            model(out@[j]),
                        ),
            {
                assert(parsed(v)->Array_0[it.index() as int] == parsed(item));
                out.push(convert(item));
            }
            proof {
                lemma_model_array(out);
                assert(items_model(out@) =~= whole);
            }
            JsonValue::Array(out)
        },
        Layer::Object(fields) => {
            let ghost all = fields@;
            let ghost whole = parsed(v)->Object_0;
            let mut out: Vec<(String, JsonValue)> = Vec::new();
            for field in it: fields
                invariant
                    it.seq() == all,
                    parsed(v) == Json::Object(whole),
                    whole == Seq::new(all.len(), |i: int| (all[i].0@, parsed(all[i].1))),
                    out@.len() == it.index(),
                    forall|j: int|
                        0 <= j < out@.len() ==> (#[trigger] out@[j]).0 == all[j].0 && model(
                            out@[j].1,
                        ) == parsed(all[j].1) && tidy(model(out@[j].1)),
            {
                assert(parsed(v)->Object_0[it.index() as int].1 == parsed(field.1));
                out.push((field.0, convert(field.1)));
            }
            proof {
                lemma_model_object(out);
                assert(fields_model(out@) =~= whole);
                assert(names(whole) =~= Seq::new(all.len(), |i: int| all[i].0@));
            }
            JsonValue::Object(out)
        },
    }
}

/// The values ahead of the first error in `all`.
pub open spec fn good_values(all: Seq<Result<Json, (bool, Seq<char>)>>) -> Seq<Json>
    decreases all.len(),
{
    if all.len() == 0 {
        Seq::empty()
    } else if all[0] is Ok {
        seq![all[0]->Ok_0] + good_values(all.drop_first())
    } else {
        Seq::empty()
    }
}

/// The first error in `all`.
pub open spec fn first_fault(all: Seq<Result<Json, (bool, Seq<char>)>>) -> Option<(bool, Seq<char>)>
    decreases all.len(),
{
    if all.len() == 0 {
        None
    } else if all[0] is Ok {
        first_fault(all.drop_first())
    } else {
        Some(all[0]->Err_0)
    }
}

pub open spec fn fault_model(fault: Option<(bool, String)>) -> Option<(bool, Seq<char>)> {
    match fault {
        None => None,
        Some(f) => Some((f.0, f.1@)),
    }
}

/// The JSON values of a text up to its end or its first error, and that error.
pub fn read_json(text: &str) -> (r: (Vec<JsonValue>, Option<(bool, String)>))
    ensures
        items_model(r.0@) == good_values(json_values(text@)),
        fault_model(r.1) == first_fault(json_values(text@)),
        forall|i: int| 0 <= i < r.0@.len() ==> tidy(#[trigger] items_model(r.0@)[i]),
        ends_freely(text@),
{
    let values = read_values(text);
    let ghost all = values@;
    let ghost whole = json_values(text@);
    let mut out: Vec<JsonValue> = Vec::new();
    assert(whole.skip(0) =~= whole);
    assert(Seq::<Json>::empty() + good_values(whole) =~= good_values(whole));
    assert(items_model(out@) =~= Seq::empty());
    for value in it: values
        invariant
            it.seq() == all,
            whole == read_model(all),
            whole == json_values(text@),
            out@.len() == it.index(),
            good_values(whole) == items_model(out@) + good_values(whole.skip(it.index() as int)),
            first_fault(whole) == first_fault(whole.skip(it.index() as int)),
            forall|i: int| 0 <= i < out@.len() ==> tidy(#[trigger] items_model(out@)[i]),
            ends_freely(text@),
    {
        let ghost n = it.index() as int;
        let ghost before = out@;
        assert(whole.skip(n).drop_first() =~= whole.skip(n + 1));
        assert(whole.skip(n)[0] == whole[n]);
        match value {
            Ok(v) => {
                out.push(convert(v));
                proof {
                    assert(items_model(out@) =~= items_model(before) + seq![parsed(v)]);
                    assert(good_values(whole) =~= items_model(out@) + good_values(
                        whole.skip(n + 1),
                    ));
                    assert forall|i: int| 0 <= i < out@.len() implies tidy(
                        #[trigger] items_model(out@)[i],
                    ) by {
                        if i < before.len() {
                            assert(items_model(out@)[i] == items_model(before)[i]);
                        }
                    }
                }
            },
            Err(fault) => {
                assert(good_values(whole) =~= items_model(out@));
                return (out, Some(fault));
            },
        }
    }
    assert(whole.skip(whole.len() as int) =~= Seq::empty());
    assert(good_values(whole) =~= items_model(out@));
    (out, None)
}

/// A schema: the label of every field, by the field's name.
pub open spec fn schema_model(schema: Seq<(String, String)>) -> Seq<(Seq<char>, Seq<char>)> {
    Seq::new(schema.len(), |i: int| (schema[i].0@, schema[i].1@))
}

pub open spec fn schema_names(schema: Seq<(Seq<char>, Seq<char>)>) -> Seq<Seq<char>> {
    Seq::new(schema.len(), |i: int| schema[i].0)
}

/// The one-line JSON text of an object whose values are all texts.
pub open spec fn compact_json(schema: Seq<(Seq<char>, Seq<char>)>) -> Seq<char> {
    quoted::compact_text(schema)
}

/// The indented JSON text of an object whose values are all texts.
pub open spec fn pretty_json(schema: Seq<(Seq<char>, Seq<char>)>) -> Seq<char> {
    quoted::pretty_text(schema)
}

/// The compact form that the `Display` of `serde_json::Value` writes for an object of texts;
/// `serde_json::to_string` writes the same. It cannot fail: the keys are texts, and so is
/// what is written to. Fields stand in ascending order of their names, which they have here.
/// Names and values stand in quotes, with quotes, backslashes and control characters escaped,
/// and no space between them.
#[verifier::external_body]
fn write_compact(schema: &Vec<(String, String)>) -> (r: String)
    requires
        order::ascending(schema_names(schema_model(schema@))),
    ensures
        r@ == compact_json(schema_model(schema@)),
{
    let fields = schema.iter().map(|f| (f.0.clone(), serde_json::Value::String(f.1.clone())));
    serde_json::Value::Object(fields.collect()).to_string()
}

/// The form that the `Display` of `serde_json::Value` writes with the `#` flag, which is that
/// of `serde_json::to_string_pretty`: each field on a line of its own, indented by two spaces,
/// with a space behind the colon.
#[verifier::external_body]
fn write_pretty(schema: &Vec<(String, String)>) -> (r: String)
    requires
        order::ascending(schema_names(schema_model(schema@))),
    ensures
        r@ == pretty_json(schema_model(schema@)),
{
    let fields = schema.iter().map(|f| (f.0.clone(), serde_json::Value::String(f.1.clone())));
    format!("{:#}", serde_json::Value::Object(fields.collect()))
}

/// The canonical JSON text of a schema.
pub fn canonical_json(schema: &Vec<(String, String)>) -> (r: String)
    requires
        order::ascending(schema_names(schema_model(schema@))),
    ensures
        r@ == compact_json(schema_model(schema@)),
{
    write_compact(schema)
}

/// The content of a schema file: the JSON text and a line feed.
pub fn schema_file_text(schema: &Vec<(String, String)>, compact_output: bool) -> (r: String)
    requires
        order::ascending(schema_names(schema_model(schema@))),
    ensures
        r@ == (if compact_output {
            compact_json(schema_model(schema@))
        } else {
            pretty_json(schema_model(schema@))
        }) + "\n"@,
{
    let mut out = if compact_output {
        write_compact(schema)
    } else {
        write_pretty(schema)
    };
    out.append("\n");
    out
}

} // verus!
