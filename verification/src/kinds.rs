//! The six kinds of JSON values, and how often each occurs.

use crate::json;
use crate::json::{Json, JsonValue};
use vstd::prelude::*;

verus! {

/// Which kinds of values occur.
#[derive(Clone, Copy, PartialEq, Eq, Structural)]
pub struct Kinds {
    pub array: bool,
    pub boolean: bool,
    pub null: bool,
    pub number: bool,
    pub object: bool,
    pub string: bool,
}

pub open spec fn no_kinds() -> Kinds {
    Kinds {
        array: false,
        boolean: false,
        null: false,
        number: false,
        object: false,
        string: false,
    }
}

/// `kinds`, and the kind of `j`.
pub open spec fn with_kind(kinds: Kinds, j: Json) -> Kinds {
    Kinds {
        array: kinds.array || j is Array,
        boolean: kinds.boolean || j is Bool,
        null: kinds.null || j is Null,
        number: kinds.number || j is Number,
        object: kinds.object || j is Object,
        string: kinds.string || j is Text,
    }
}

/// The kinds that occur among `values`.
pub open spec fn kinds(values: Seq<Json>) -> Kinds
    decreases values.len(),
{
    if values.len() == 0 {
        no_kinds()
    } else {
        with_kind(kinds(values.drop_last()), values.last())
    }
}

pub open spec fn if_any(condition: bool, name: Seq<char>) -> Seq<Seq<char>> {
    if condition {
        seq![name]
    } else {
        Seq::empty()
    }
}

/// The names of the kinds, in alphabetical order.
pub open spec fn kind_names(k: Kinds) -> Seq<Seq<char>> {
    if_any(k.array, "array"@) + if_any(k.boolean, "boolean"@) + if_any(k.null, "null"@) + if_any(
        k.number,
        "number"@,
    ) + if_any(k.object, "object"@) + if_any(k.string, "string"@)
}

/// The name of the kind of `j`.
pub open spec fn kind_name(j: Json) -> Seq<char> {
    match j {
        Json::Null => "null"@,
        Json::Bool(_) => "boolean"@,
        Json::Number(_) => "number"@,
        Json::Text(_) => "string"@,
        Json::Array(_) => "array"@,
        Json::Object(_) => "object"@,
    }
}

pub fn value_type(value: &JsonValue) -> (r: &'static str)
    ensures
        r@ == kind_name(json::model(*value)),
{
    match value {
        JsonValue::Null => "null",
        JsonValue::Bool(_) => "boolean",
        JsonValue::Number(_) => "number",
        JsonValue::Text(_) => "string",
        JsonValue::Array(_) => "array",
        JsonValue::Object(_) => "object",
    }
}

pub open spec fn refs_model(values: Seq<&JsonValue>) -> Seq<Json> {
    Seq::new(values.len(), |i: int| json::model(*values[i]))
}

/// The kinds that occur among `values`.
pub fn kinds_of(values: &Vec<&JsonValue>) -> (r: Kinds)
    ensures
        r == kinds(refs_model(values@)),
{
    let ghost all = refs_model(values@);
    let mut r = Kinds {
        array: false,
        boolean: false,
        null: false,
        number: false,
        object: false,
        string: false,
    };
    let mut i: usize = 0;
    assert(all.take(0) =~= Seq::empty());
    while i < values.len()
        invariant
            i <= values@.len(),
            all == refs_model(values@),
            r == kinds(all.take(i as int)),
        decreases values@.len() - i,
    {
        assert(all.take(i + 1).drop_last() =~= all.take(i as int));
        assert(all.take(i + 1).last() == json::model(*values@[i as int]));
        match values[i] {
            JsonValue::Null => {
                r.null = true;
            },
            JsonValue::Bool(_) => {
                r.boolean = true;
            },
            JsonValue::Number(_) => {
                r.number = true;
            },
            JsonValue::Text(_) => {
                r.string = true;
            },
            JsonValue::Array(_) => {
                r.array = true;
            },
            JsonValue::Object(_) => {
                r.object = true;
            },
        }
        i = i + 1;
    }
    assert(all.take(all.len() as int) =~= all);
    r
}

/// How often each kind occurs.
pub ghost struct Tally {
    pub array: int,
    pub boolean: int,
    pub null: int,
    pub number: int,
    pub object: int,
    pub string: int,
}

pub open spec fn no_tally() -> Tally {
    Tally { array: 0, boolean: 0, null: 0, number: 0, object: 0, string: 0 }
}

pub open spec fn one(condition: bool) -> int {
    if condition {
        1
    } else {
        0
    }
}

/// The tally of one value.
pub open spec fn tally_one(j: Json) -> Tally {
    Tally {
        array: one(j is Array),
        boolean: one(j is Bool),
        null: one(j is Null),
        number: one(j is Number),
        object: one(j is Object),
        string: one(j is Text),
    }
}

pub open spec fn tally_sum(a: Tally, b: Tally) -> Tally {
    Tally {
        array: a.array + b.array,
        boolean: a.boolean + b.boolean,
        null: a.null + b.null,
        number: a.number + b.number,
        object: a.object + b.object,
        string: a.string + b.string,
    }
}

/// How often each kind occurs among `values`.
pub open spec fn tally(values: Seq<Json>) -> Tally
    decreases values.len(),
{
    if values.len() == 0 {
        no_tally()
    } else {
        tally_sum(tally(values.drop_last()), tally_one(values.last()))
    }
}

/// The kinds that a tally has seen.
pub open spec fn tally_kinds(t: Tally) -> Kinds {
    Kinds {
        array: t.array > 0,
        boolean: t.boolean > 0,
        null: t.null > 0,
        number: t.number > 0,
        object: t.object > 0,
        string: t.string > 0,
    }
}

pub open spec fn tally_within(t: Tally, low: int, high: int) -> bool {
    low <= t.array <= high && low <= t.boolean <= high && low <= t.null <= high && low <= t.number
        <= high && low <= t.object <= high && low <= t.string <= high
}

/// The tally of values tells which kinds occur among them.
pub proof fn lemma_tally(values: Seq<Json>)
    ensures
        tally_kinds(tally(values)) == kinds(values),
        tally_within(tally(values), 0, values.len() as int),
    decreases values.len(),
{
    if values.len() > 0 {
        lemma_tally(values.drop_last());
    }
}

/// How often each kind of value occurred.
#[derive(Clone, Copy, PartialEq, Eq, Structural, Debug)]
pub struct ValueTypeCounts {
    pub array: i64,
    pub boolean: i64,
    pub null: i64,
    pub number: i64,
    pub object: i64,
    pub string: i64,
}

impl Default for ValueTypeCounts {
    fn default() -> (r: Self)
        ensures
            r.tally() == no_tally(),
    {
        ValueTypeCounts { array: 0, boolean: 0, null: 0, number: 0, object: 0, string: 0 }
    }
}

impl ValueTypeCounts {
    pub open spec fn tally(self) -> Tally {
        Tally {
            array: self.array as int,
            boolean: self.boolean as int,
            null: self.null as int,
            number: self.number as int,
            object: self.object as int,
            string: self.string as int,
        }
    }

    pub fn single(value: &JsonValue) -> (r: Self)
        ensures
            r.tally() == tally_one(json::model(*value)),
    {
        let mut r = ValueTypeCounts {
            array: 0,
            boolean: 0,
            null: 0,
            number: 0,
            object: 0,
            string: 0,
        };
        match value {
            JsonValue::Array(_) => {
                r.array = 1;
            },
            JsonValue::Bool(_) => {
                r.boolean = 1;
            },
            JsonValue::Null => {
                r.null = 1;
            },
            JsonValue::Number(_) => {
                r.number = 1;
            },
            JsonValue::Object(_) => {
                r.object = 1;
            },
            JsonValue::Text(_) => {
                r.string = 1;
            },
        }
        r
    }

    pub fn add(&mut self, other: Self)
        requires
            tally_within(
                tally_sum(old(self).tally(), other.tally()),
                i64::MIN as int,
                i64::MAX as int,
            ),
        ensures
            final(self).tally() == tally_sum(old(self).tally(), other.tally()),
    {
        self.array = self.array + other.array;
        self.boolean = self.boolean + other.boolean;
        self.null = self.null + other.null;
        self.number = self.number + other.number;
        self.object = self.object + other.object;
        self.string = self.string + other.string;
    }

    pub fn kinds(self) -> (r: Kinds)
        ensures
            r == tally_kinds(self.tally()),
    {
        Kinds {
            array: self.array > 0,
            boolean: self.boolean > 0,
            null: self.null > 0,
            number: self.number > 0,
            object: self.object > 0,
            string: self.string > 0,
        }
    }

    pub fn type_names(self) -> (r: Vec<&'static str>)
        ensures
            strs_model(r@) == kind_names(tally_kinds(self.tally())),
    {
        names_of_kinds(self.kinds())
    }
}

pub open spec fn strs_model(texts: Seq<&'static str>) -> Seq<Seq<char>> {
    Seq::new(texts.len(), |i: int| texts[i]@)
}

/// The names of the kinds, in alphabetical order.
pub fn names_of_kinds(k: Kinds) -> (r: Vec<&'static str>)
    ensures
        strs_model(r@) == kind_names(k),
{
    let mut out: Vec<&'static str> = Vec::new();
    if k.array {
        out.push("array");
    }
    if k.boolean {
        out.push("boolean");
    }
    if k.null {
        out.push("null");
    }
    if k.number {
        out.push("number");
    }
    if k.object {
        out.push("object");
    }
    if k.string {
        out.push("string");
    }
    assert(strs_model(out@) =~= kind_names(k));
    out
}

} // verus!
