//! What holds of labels: which values they stand for.

use crate::json;
use crate::json::Json;
use crate::kinds;
use crate::kinds::Kinds;
use crate::label;
use crate::order;
use crate::order::Ordered;
use crate::path;
use crate::same_records;
use crate::text;
use vstd::prelude::*;

verus! {

/// A kind is seen exactly if some value is of it.
pub proof fn law_kinds_are_those_of_the_values(values: Seq<Json>)
    ensures
        kinds::kinds(values).array <==> exists|i: int|
            0 <= i < values.len() && (#[trigger] values[i]) is Array,
        kinds::kinds(values).boolean <==> exists|i: int|
            0 <= i < values.len() && (#[trigger] values[i]) is Bool,
        kinds::kinds(values).null <==> exists|i: int|
            0 <= i < values.len() && (#[trigger] values[i]) is Null,
        kinds::kinds(values).number <==> exists|i: int|
            0 <= i < values.len() && (#[trigger] values[i]) is Number,
        kinds::kinds(values).object <==> exists|i: int|
            0 <= i < values.len() && (#[trigger] values[i]) is Object,
        kinds::kinds(values).string <==> exists|i: int|
            0 <= i < values.len() && (#[trigger] values[i]) is Text,
    decreases values.len(),
{
    if values.len() > 0 {
        let d = values.drop_last();
        let n = values.len() - 1;
        law_kinds_are_those_of_the_values(d);
        assert forall|i: int| 0 <= i < d.len() implies d[i] == #[trigger] values[i] by {}
        let k = kinds::kinds(d);
        if k.array {
            let i = choose|i: int| 0 <= i < d.len() && (#[trigger] d[i]) is Array;
            assert(values[i] is Array);
        }
        if k.boolean {
            let i = choose|i: int| 0 <= i < d.len() && (#[trigger] d[i]) is Bool;
            assert(values[i] is Bool);
        }
        if k.null {
            let i = choose|i: int| 0 <= i < d.len() && (#[trigger] d[i]) is Null;
            assert(values[i] is Null);
        }
        if k.number {
            let i = choose|i: int| 0 <= i < d.len() && (#[trigger] d[i]) is Number;
            assert(values[i] is Number);
        }
        if k.object {
            let i = choose|i: int| 0 <= i < d.len() && (#[trigger] d[i]) is Object;
            assert(values[i] is Object);
        }
        if k.string {
            let i = choose|i: int| 0 <= i < d.len() && (#[trigger] d[i]) is Text;
            assert(values[i] is Text);
        }
        assert(values[n] == values.last());
    }
}

/// How often each kind occurs is the number of its values.
pub proof fn law_tallies_count_the_values(values: Seq<Json>)
    ensures
        kinds::tally(values).array == values.filter(|v: Json| v is Array).len(),
        kinds::tally(values).boolean == values.filter(|v: Json| v is Bool).len(),
        kinds::tally(values).null == values.filter(|v: Json| v is Null).len(),
        kinds::tally(values).number == values.filter(|v: Json| v is Number).len(),
        kinds::tally(values).object == values.filter(|v: Json| v is Object).len(),
        kinds::tally(values).string == values.filter(|v: Json| v is Text).len(),
    decreases values.len(),
{
    reveal(Seq::filter);
    if values.len() > 0 {
        law_tallies_count_the_values(values.drop_last());
    }
}

/// The kinds have the names that JSON has for them.
pub proof fn law_names_of_kinds(j: Json)
    ensures
        j is Null ==> kinds::kind_name(j) == "null"@,
        j is Bool ==> kinds::kind_name(j) == "boolean"@,
        j is Number ==> kinds::kind_name(j) == "number"@,
        j is Text ==> kinds::kind_name(j) == "string"@,
        j is Array ==> kinds::kind_name(j) == "array"@,
        j is Object ==> kinds::kind_name(j) == "object"@,
{
}

proof fn lemma_first_decides(a: Seq<char>, b: Seq<char>)
    requires
        a.len() > 0,
        b.len() > 0,
        (a[0] as int) < (b[0] as int),
    ensures
        a.before(b),
{
}

proof fn lemma_kind_order()
    ensures
        "array"@.before("boolean"@),
        "array"@.before("null"@),
        "array"@.before("number"@),
        "array"@.before("object"@),
        "array"@.before("string"@),
        "boolean"@.before("null"@),
        "boolean"@.before("number"@),
        "boolean"@.before("object"@),
        "boolean"@.before("string"@),
        "null"@.before("number"@),
        "null"@.before("object"@),
        "null"@.before("string"@),
        "number"@.before("object"@),
        "number"@.before("string"@),
        "object"@.before("string"@),
{
    reveal_strlit("array");
    reveal_strlit("boolean");
    reveal_strlit("null");
    reveal_strlit("number");
    reveal_strlit("object");
    reveal_strlit("string");
    lemma_first_decides("array"@, "boolean"@);
    lemma_first_decides("array"@, "null"@);
    lemma_first_decides("array"@, "number"@);
    lemma_first_decides("array"@, "object"@);
    lemma_first_decides("array"@, "string"@);
    lemma_first_decides("boolean"@, "null"@);
    lemma_first_decides("boolean"@, "number"@);
    lemma_first_decides("boolean"@, "object"@);
    lemma_first_decides("boolean"@, "string"@);
    lemma_first_decides("null"@, "object"@);
    lemma_first_decides("null"@, "string"@);
    lemma_first_decides("number"@, "object"@);
    lemma_first_decides("number"@, "string"@);
    lemma_first_decides("object"@, "string"@);
    let a = "null"@;
    let b = "number"@;
    assert(a.drop_first()[0] == b.drop_first()[0]);
    assert(a.drop_first().drop_first()[0] == 'l');
    assert(b.drop_first().drop_first()[0] == 'm');
    reveal_with_fuel(order::lex_before, 4);
}

proof fn lemma_if_any(condition: bool, name: Seq<char>, l: Seq<char>)
    ensures
        kinds::if_any(condition, name).contains(l) <==> condition && l == name,
{
    if condition {
        assert(kinds::if_any(condition, name)[0] == name);
    }
}

/// The names of kinds are listed in ascending order, each that is seen.
pub proof fn law_kinds_are_listed_in_order(k: Kinds, l: Seq<char>)
    ensures
        order::ascending(kinds::kind_names(k)),
        kinds::kind_names(k).contains(l) <==> (k.array && l == "array"@) || (k.boolean && l
            == "boolean"@) || (k.null && l == "null"@) || (k.number && l == "number"@) || (k.object
            && l == "object"@) || (k.string && l == "string"@),
{
    lemma_kind_order();
    let a = kinds::if_any(k.array, "array"@);
    let b = kinds::if_any(k.boolean, "boolean"@);
    let c = kinds::if_any(k.null, "null"@);
    let d = kinds::if_any(k.number, "number"@);
    let e = kinds::if_any(k.object, "object"@);
    let f = kinds::if_any(k.string, "string"@);
    lemma_if_any(k.array, "array"@, l);
    lemma_if_any(k.boolean, "boolean"@, l);
    lemma_if_any(k.null, "null"@, l);
    lemma_if_any(k.number, "number"@, l);
    lemma_if_any(k.object, "object"@, l);
    lemma_if_any(k.string, "string"@, l);
    same_records::lemma_concat_contains(a, b, l);
    same_records::lemma_concat_contains(a + b, c, l);
    same_records::lemma_concat_contains(a + b + c, d, l);
    same_records::lemma_concat_contains(a + b + c + d, e, l);
    same_records::lemma_concat_contains(a + b + c + d + e, f, l);
}

/// What a member of an array adds to the label of the array's members: the name of its kind if
/// it is a scalar, the file of the objects if it is one of them, and the label of the arrays
/// if it is one.
pub open spec fn member_part(base: Seq<char>, member: Json, nested: Seq<char>) -> Seq<char> {
    match member {
        Json::Null => "null"@,
        Json::Bool(_) => "boolean"@,
        Json::Number(_) => "number"@,
        Json::Text(_) => "string"@,
        Json::Object(_) => base + ".json"@,
        Json::Array(_) => "array("@ + nested + ")"@,
    }
}

/// A label says that it stands for these parts, given in ascending order: one part is the label;
/// a part beside `null` has a `?`; several stand with `|` between them.
pub open spec fn stands_for(l: Seq<char>, parts: Seq<Seq<char>>) -> bool {
    &&& order::ascending(parts)
    &&& parts.len() == 1 ==> l == parts[0]
    &&& parts.len() == 2 && parts[0] == "null"@ ==> l == parts[1] + seq!['?']
    &&& parts.len() == 2 && parts[1] == "null"@ ==> l == parts[0] + seq!['?']
    &&& (parts.len() == 2 && parts[0] != "null"@ && parts[1] != "null"@) || parts.len() > 2 ==> l
        == text::joined(parts, "|"@)
}

proof fn lemma_stands_for(parts: Seq<Seq<char>>)
    requires
        order::ascending(parts),
    ensures
        stands_for(label::union_label(parts), parts),
{
    reveal_strlit("?");
    assert("?"@ =~= seq!['?']);
    if parts.len() == 2 {
        order::lemma_before_excludes(parts[0], parts[1]);
        assert(parts.contains(parts[0]) && parts.contains(parts[1]));
        if parts.contains("null"@) {
            let i = choose|i: int| 0 <= i < parts.len() && parts[i] == "null"@;
            assert(i == 0 || i == 1);
        }
    }
}

proof fn lemma_member_labels(base: Seq<char>, k: Kinds, nested: Seq<char>, l: Seq<char>)
    ensures
        label::member_labels(base, k, nested).contains(l) <==> (k.boolean && l == "boolean"@) || (
        k.number && l == "number"@) || (k.string && l == "string"@) || (k.null && l == "null"@) || (
        k.object && l == base + ".json"@) || (k.array && l == "array("@ + nested + ")"@),
{
    let a = kinds::if_any(k.boolean, "boolean"@);
    let b = kinds::if_any(k.number, "number"@);
    let c = kinds::if_any(k.string, "string"@);
    let d = kinds::if_any(k.null, "null"@);
    let e = kinds::if_any(k.object, base + ".json"@);
    let f = kinds::if_any(k.array, "array("@ + nested + ")"@);
    lemma_if_any(k.boolean, "boolean"@, l);
    lemma_if_any(k.number, "number"@, l);
    lemma_if_any(k.string, "string"@, l);
    lemma_if_any(k.null, "null"@, l);
    lemma_if_any(k.object, base + ".json"@, l);
    lemma_if_any(k.array, "array("@ + nested + ")"@, l);
    same_records::lemma_concat_contains(a, b, l);
    same_records::lemma_concat_contains(a + b, c, l);
    same_records::lemma_concat_contains(a + b + c, d, l);
    same_records::lemma_concat_contains(a + b + c + d, e, l);
    same_records::lemma_concat_contains(a + b + c + d + e, f, l);
}

/// The label of the members of an array says what they are: it stands for the parts that the
/// members add, and for nothing else. An array without members has the label `empty`.
pub proof fn law_member_labels_tell_the_members(base: Seq<char>, values: Seq<Json>) -> (parts: Seq<
    Seq<char>,
>)
    ensures
        values.len() == 0 ==> label::member_label(base, label::profile(values)) == "empty"@,
        values.len() > 0 ==> stands_for(label::member_label(base, label::profile(values)), parts),
        values.len() > 0 ==> parts.len() > 0,
        forall|l: Seq<char>| #[trigger]
            parts.contains(l) <==> exists|i: int|
                0 <= i < values.len() && l == member_part(
                    base,
                    #[trigger] values[i],
                    label::member_label(base, label::profile(label::members(values))),
                ),
{
    let nested = label::member_label(base, label::profile(label::members(values)));
    if values.len() == 0 {
        Seq::empty()
    } else {
        let k = kinds::kinds(values);
        let rest = label::profile(label::members(values));
        assert(label::profile(values).drop_first() =~= rest);
        assert(label::profile(values)[0] == k);
        let all = label::member_labels(base, k, nested);
        let parts = order::sorted_set(all);
        order::lemma_sorted_set(all);
        lemma_stands_for(parts);
        law_kinds_are_those_of_the_values(values);
        assert forall|l: Seq<char>| #[trigger]
            parts.contains(l) <==> exists|i: int|
                0 <= i < values.len() && l == member_part(base, #[trigger] values[i], nested) by {
            lemma_member_labels(base, k, nested, l);
            if parts.contains(l) {
                assert(all.contains(l));
                let i = if k.boolean && l == "boolean"@ {
                    choose|i: int| 0 <= i < values.len() && (#[trigger] values[i]) is Bool
                } else if k.number && l == "number"@ {
                    choose|i: int| 0 <= i < values.len() && (#[trigger] values[i]) is Number
                } else if k.string && l == "string"@ {
                    choose|i: int| 0 <= i < values.len() && (#[trigger] values[i]) is Text
                } else if k.null && l == "null"@ {
                    choose|i: int| 0 <= i < values.len() && (#[trigger] values[i]) is Null
                } else if k.object && l == base + ".json"@ {
                    choose|i: int| 0 <= i < values.len() && (#[trigger] values[i]) is Object
                } else {
                    choose|i: int| 0 <= i < values.len() && (#[trigger] values[i]) is Array
                };
                assert(0 <= i < values.len() && l == member_part(base, values[i], nested));
            }
            if exists|i: int|
                0 <= i < values.len() && l == member_part(base, #[trigger] values[i], nested) {
                let i = choose|i: int|
                    0 <= i < values.len() && l == member_part(base, #[trigger] values[i], nested);
                assert(all.contains(l));
            }
        }
        let l = member_part(base, values[0], nested);
        assert(parts.contains(l));
        parts
    }
}

/// Members that are all scalars of one kind have the name of that kind as their label, the one
/// that the kind of each member has; so arrays of different kinds have different labels.
pub proof fn law_members_of_one_kind(base: Seq<char>, values: Seq<Json>)
    requires
        values.len() > 0,
        !(values[0] is Array) && !(values[0] is Object),
        forall|i: int|
            0 <= i < values.len() ==> kinds::kind_name(#[trigger] values[i]) == kinds::kind_name(
                values[0],
            ),
    ensures
        label::member_label(base, label::profile(values)) == kinds::kind_name(values[0]),
        values[0] is Bool ==> label::array_of(label::member_label(base, label::profile(values)))
            == "array("@ + "boolean"@ + ")"@,
        values[0] is Number ==> label::array_of(label::member_label(base, label::profile(values)))
            == "array("@ + "number"@ + ")"@,
        values[0] is Text ==> label::array_of(label::member_label(base, label::profile(values)))
            == "array("@ + "string"@ + ")"@,
        values[0] is Null ==> label::array_of(label::member_label(base, label::profile(values)))
            == "array("@ + "null"@ + ")"@,
{
    let name = kinds::kind_name(values[0]);
    let nested = label::member_label(base, label::profile(label::members(values)));
    let parts = law_member_labels_tell_the_members(base, values);
    lemma_kinds_differ();
    assert forall|i: int| 0 <= i < parts.len() implies #[trigger] parts[i] == name by {
        assert(parts.contains(parts[i]));
        let j = choose|j: int|
            0 <= j < values.len() && parts[i] == member_part(base, #[trigger] values[j], nested);
        assert(kinds::kind_name(values[j]) == name);
    }
    if parts.len() > 1 {
        order::lemma_before_excludes(parts[0], parts[1]);
    }
}

pub proof fn lemma_kinds_differ()
    ensures
        "null"@ != "boolean"@ && "null"@ != "number"@ && "null"@ != "string"@,
        "boolean"@ != "number"@ && "boolean"@ != "string"@ && "number"@ != "string"@,
        "array"@ != "null"@ && "array"@ != "boolean"@ && "array"@ != "number"@ && "array"@
            != "string"@ && "array"@ != "object"@,
        "object"@ != "null"@ && "object"@ != "boolean"@ && "object"@ != "number"@ && "object"@
            != "string"@,
{
    lemma_kind_order();
    order::lemma_before_excludes("null"@, "number"@);
    order::lemma_before_excludes("null"@, "string"@);
    order::lemma_before_excludes("boolean"@, "null"@);
    order::lemma_before_excludes("boolean"@, "number"@);
    order::lemma_before_excludes("boolean"@, "string"@);
    order::lemma_before_excludes("number"@, "string"@);
    order::lemma_before_excludes("array"@, "null"@);
    order::lemma_before_excludes("array"@, "boolean"@);
    order::lemma_before_excludes("array"@, "number"@);
    order::lemma_before_excludes("array"@, "string"@);
    order::lemma_before_excludes("array"@, "object"@);
    order::lemma_before_excludes("null"@, "object"@);
    order::lemma_before_excludes("boolean"@, "object"@);
    order::lemma_before_excludes("number"@, "object"@);
    order::lemma_before_excludes("object"@, "string"@);
}

/// The members of several values are those of all arrays among them, in their order.
pub proof fn law_members_of_all_arrays(a: Seq<Json>, b: Seq<Json>, v: Json)
    ensures
        label::members(a + b) == label::members(a) + label::members(b),
        v is Array ==> label::members(seq![v]) == v->Array_0,
        !(v is Array) ==> label::members(seq![v]).len() == 0,
    decreases b.len(),
{
    reveal_with_fuel(label::members, 2);
    assert(seq![v].drop_last() =~= Seq::empty());
    if v is Array {
        assert(label::members(seq![v]) =~= v->Array_0);
    }
    if b.len() == 0 {
        assert(a + b =~= a);
        assert(label::members(a) + label::members(b) =~= label::members(a));
    } else {
        law_members_of_all_arrays(a, b.drop_last(), v);
        assert((a + b).drop_last() =~= a + b.drop_last());
        assert((a + b).last() == b.last());
        assert(label::members(a + b) =~= label::members(a) + label::members(b));
    }
}

/// The kind of a scalar; an array stands with its label, and an object beside other kinds with
/// its name.
pub open spec fn field_part(value: Json, array: Seq<char>) -> Seq<char> {
    match value {
        Json::Null => "null"@,
        Json::Bool(_) => "boolean"@,
        Json::Number(_) => "number"@,
        Json::Text(_) => "string"@,
        Json::Object(_) => "object"@,
        Json::Array(_) => array,
    }
}

/// The parts are those that the values add, `null` left out where `nulls` does not hold.
pub open spec fn are_parts(
    parts: Seq<Seq<char>>,
    values: Seq<Json>,
    array: Seq<char>,
    nulls: bool,
) -> bool {
    &&& order::ascending(parts)
    &&& forall|l: Seq<char>| #[trigger]
        parts.contains(l) <==> exists|i: int|
            0 <= i < values.len() && (nulls || !(values[i] is Null)) && l == field_part(
                #[trigger] values[i],
                array,
            )
}

proof fn lemma_named_parts(values: Seq<Json>, array: Seq<char>, nulls: bool)
    requires
        forall|i: int| 0 <= i < values.len() ==> !((#[trigger] values[i]) is Array),
    ensures
        ({
            let k = kinds::kinds(values);
            are_parts(
                kinds::kind_names(
                    Kinds { array: false, null: k.null && nulls, ..k },
                ),
                values,
                array,
                nulls,
            )
        }),
{
    let k = kinds::kinds(values);
    let shown = Kinds { array: false, null: k.null && nulls, ..k };
    let parts = kinds::kind_names(shown);
    law_kinds_are_those_of_the_values(values);
    law_kinds_are_listed_in_order(shown, "null"@);
    assert forall|l: Seq<char>| #[trigger] parts.contains(l) <==> exists|i: int|
        0 <= i < values.len() && (nulls || !(values[i] is Null)) && l == field_part(
            #[trigger] values[i],
            array,
        ) by {
        law_kinds_are_listed_in_order(shown, l);
        if parts.contains(l) {
            let i = if k.boolean && l == "boolean"@ {
                choose|i: int| 0 <= i < values.len() && (#[trigger] values[i]) is Bool
            } else if k.number && l == "number"@ {
                choose|i: int| 0 <= i < values.len() && (#[trigger] values[i]) is Number
            } else if k.string && l == "string"@ {
                choose|i: int| 0 <= i < values.len() && (#[trigger] values[i]) is Text
            } else if k.object && l == "object"@ {
                choose|i: int| 0 <= i < values.len() && (#[trigger] values[i]) is Object
            } else {
                choose|i: int| 0 <= i < values.len() && (#[trigger] values[i]) is Null
            };
            assert(0 <= i < values.len() && (nulls || !(values[i] is Null)) && l == field_part(
                values[i],
                array,
            ));
        }
        if exists|i: int|
            0 <= i < values.len() && (nulls || !(values[i] is Null)) && l == field_part(
                #[trigger] values[i],
                array,
            ) {
            let i = choose|i: int|
                0 <= i < values.len() && (nulls || !(values[i] is Null)) && l == field_part(
                    #[trigger] values[i],
                    array,
                );
            assert(!(values[i] is Array));
        }
    }
}

/// The label of a field whose values are scalars. Its parts are the kinds of the values. A field
/// that is missing in some object is optional, and so is one that is null or a number, or null
/// or a text; optional ones have one `?` at their end, unless they are always null.
pub proof fn law_scalar_fields(base: Seq<char>, values: Seq<Json>, total: int) -> (parts: Seq<
    Seq<char>,
>)
    requires
        values.len() > 0,
        forall|i: int|
            0 <= i < values.len() ==> !((#[trigger] values[i]) is Array) && !(values[i] is Object),
    ensures
        are_parts(parts, values, Seq::empty(), true),
        parts.len() > 0,
        ({
            let l = label::values_label(base, values, total);
            let missing = values.len() < total;
            &&& parts.len() == 2 && parts[0] == "null"@ ==> l == parts[1] + seq!['?']
            &&& parts.len() == 1 && parts[0] == "null"@ ==> l == "null"@
            &&& parts.len() == 1 && parts[0] != "null"@ && missing ==> l == parts[0] + seq!['?']
            &&& parts.len() == 1 && parts[0] != "null"@ && !missing ==> l == parts[0]
            &&& (parts.len() > 2 || (parts.len() == 2 && parts[0] != "null"@)) && missing ==> l
                == text::joined(parts, "|"@) + seq!['?']
            &&& (parts.len() > 2 || (parts.len() == 2 && parts[0] != "null"@)) && !missing ==> l
                == text::joined(parts, "|"@)
        }),
{
    let k = kinds::kinds(values);
    let parts = kinds::kind_names(k);
    law_kinds_are_those_of_the_values(values);
    assert(!k.array && !k.object);
    assert(Kinds { array: false, null: k.null && true, ..k } == k);
    lemma_named_parts(values, Seq::empty(), true);
    let first = field_part(values[0], Seq::empty());
    assert(parts.contains(first));
    reveal_strlit("?");
    assert("?"@ =~= seq!['?']);
    lemma_kinds_differ();
    lemma_no_mark(k);
    lemma_joined_null(parts);
    parts
}

/// Kinds that are joined end with no question mark.
proof fn lemma_no_mark(k: Kinds)
    ensures
        ({
            let joined = text::joined(kinds::kind_names(k), "|"@);
            joined.len() > 0 ==> joined.last() != '?'
        }),
{
    reveal_strlit("array");
    reveal_strlit("boolean");
    reveal_strlit("null");
    reveal_strlit("number");
    reveal_strlit("object");
    reveal_strlit("string");
    reveal_strlit("|");
    let parts = kinds::kind_names(k);
    let joined = text::joined(parts, "|"@);
    if parts.len() > 0 {
        law_kinds_are_listed_in_order(k, parts[parts.len() - 1]);
        assert(parts.contains(parts[parts.len() - 1]));
        let last = parts.last();
        assert(last.len() > 0 && last.last() != '?');
        if parts.len() > 1 {
            assert(joined.last() == last.last());
        }
    }
}

/// Several parts that are joined are not `null`.
proof fn lemma_joined_null(parts: Seq<Seq<char>>)
    ensures
        parts.len() > 1 ==> text::joined(parts, "|"@) != "null"@,
{
    reveal_strlit("|");
    reveal_strlit("null");
    if parts.len() > 1 {
        let joined = text::joined(parts, "|"@);
        let n = text::joined(parts.drop_last(), "|"@).len() as int;
        assert(joined[n] == '|' && n < joined.len());
        assert("null"@[0] == 'n' && "null"@[1] == 'u' && "null"@[2] == 'l' && "null"@[3] == 'l');
        assert("null"@.len() == 4);
        if joined == "null"@ {
            assert(n == 0 || n == 1 || n == 2 || n == 3);
        }
    }
}

/// The label of a field whose values are objects, or null, is their file. Beside scalars the
/// kinds are listed instead, null left out.
pub proof fn law_object_fields(base: Seq<char>, values: Seq<Json>, total: int) -> (parts: Seq<
    Seq<char>,
>)
    requires
        exists|i: int| 0 <= i < values.len() && (#[trigger] values[i]) is Object,
        forall|i: int| 0 <= i < values.len() ==> !((#[trigger] values[i]) is Array),
    ensures
        are_parts(parts, values, Seq::empty(), false),
        ({
            let l = label::values_label(base, values, total);
            &&& parts.len() == 1 ==> l == base + ".json"@
            &&& parts.len() > 1 ==> l == text::joined(parts, "|"@)
        }),
        parts.len() == 1 <==> forall|i: int|
            0 <= i < values.len() ==> (#[trigger] values[i]) is Object || values[i] is Null,
        parts.contains("object"@),
{
    let k = kinds::kinds(values);
    let parts = kinds::kind_names(Kinds { null: false, ..k });
    law_kinds_are_those_of_the_values(values);
    assert(!k.array);
    assert(Kinds { array: false, null: k.null && false, ..k } == Kinds { null: false, ..k });
    lemma_named_parts(values, Seq::empty(), false);
    lemma_kinds_differ();
    let at = choose|i: int| 0 <= i < values.len() && (#[trigger] values[i]) is Object;
    assert(field_part(values[at], Seq::empty()) == "object"@);
    assert(parts.contains("object"@));
    parts
}

/// The label of a field with arrays among its values stands for the label of the arrays, which
/// is that of all their members, and for the kinds of the other values, null left out.
pub proof fn law_array_fields(base: Seq<char>, values: Seq<Json>, total: int) -> (parts: Seq<
    Seq<char>,
>)
    requires
        exists|i: int| 0 <= i < values.len() && (#[trigger] values[i]) is Array,
    ensures
        ({
            let array = "array("@ + label::member_label(
                base,
                label::profile(label::members(values)),
            ) + ")"@;
            are_parts(parts, values, array, false)
        }),
        parts.len() == 1 ==> label::values_label(base, values, total) == parts[0],
        parts.len() > 1 ==> label::values_label(base, values, total) == text::joined(parts, "|"@),
        parts.len() > 0,
{
    let k = kinds::kinds(values);
    let array = "array("@ + label::member_label(base, label::profile(label::members(values)))
        + ")"@;
    let shown = Kinds { array: false, null: false, ..k };
    let names = kinds::kind_names(shown);
    let all = seq![array] + names;
    let parts = order::sorted_set(all);
    law_kinds_are_those_of_the_values(values);
    order::lemma_sorted_set(all);
    lemma_kinds_differ();
    let at = choose|i: int| 0 <= i < values.len() && (#[trigger] values[i]) is Array;
    assert forall|l: Seq<char>| #[trigger] parts.contains(l) <==> exists|i: int|
        0 <= i < values.len() && (false || !(values[i] is Null)) && l == field_part(
            #[trigger] values[i],
            array,
        ) by {
        law_kinds_are_listed_in_order(shown, l);
        same_records::lemma_concat_contains(seq![array], names, l);
        assert(seq![array].contains(l) <==> l == array) by {
            assert(seq![array][0] == array);
        }
        if parts.contains(l) {
            assert(all.contains(l));
            let i = if l == array {
                at
            } else if k.boolean && l == "boolean"@ {
                choose|i: int| 0 <= i < values.len() && (#[trigger] values[i]) is Bool
            } else if k.number && l == "number"@ {
                choose|i: int| 0 <= i < values.len() && (#[trigger] values[i]) is Number
            } else if k.string && l == "string"@ {
                choose|i: int| 0 <= i < values.len() && (#[trigger] values[i]) is Text
            } else {
                choose|i: int| 0 <= i < values.len() && (#[trigger] values[i]) is Object
            };
            assert(0 <= i < values.len() && !(values[i] is Null) && l == field_part(
                values[i],
                array,
            ));
        }
        if exists|i: int|
            0 <= i < values.len() && (false || !(values[i] is Null)) && l == field_part(
                #[trigger] values[i],
                array,
            ) {
            let i = choose|i: int|
                0 <= i < values.len() && (false || !(values[i] is Null)) && l == field_part(
                    #[trigger] values[i],
                    array,
                );
            assert(all.contains(l));
        }
    }
    lemma_stands_for(parts);
    assert(!parts.contains("null"@)) by {
        if parts.contains("null"@) {
            let i = choose|i: int|
                0 <= i < values.len() && (false || !(values[i] is Null)) && "null"@ == field_part(
                    #[trigger] values[i],
                    array,
                );
            reveal_strlit("array(");
            reveal_strlit("null");
            assert(array[0] == 'a');
        }
    }
    assert(parts.contains(array)) by {
        assert(all[0] == array);
        assert(all.contains(array));
    }
    parts
}

/// A schema names every field that one of the objects has, in ascending order, each once. Its
/// label is that of the values that the objects have under that name, in their order.
pub proof fn law_schemas_name_every_field(
    prefix: Seq<char>,
    objects: Seq<Seq<(Seq<char>, Json)>>,
    i: int,
    name: Seq<char>,
)
    ensures
        order::ascending(json::schema_names(label::schema_of(prefix, objects))),
        json::schema_names(label::schema_of(prefix, objects)).contains(name) <==> exists|o: int|
            0 <= o < objects.len() && json::names(#[trigger] objects[o]).contains(name),
        0 <= i < label::schema_of(prefix, objects).len() ==> {
            let field = label::schema_of(prefix, objects)[i];
            field.1 == label::values_label(
                prefix + path::segment(field.0),
                label::values_of(objects, field.0),
                objects.len() as int,
            )
        },
{
    label::lemma_schema_names(prefix, objects);
    order::lemma_sorted_set(label::all_names(objects));
    lemma_all_names(objects, name);
    assert(order::sorted_set(label::all_names(objects)).contains(name) <==> label::all_names(
        objects,
    ).contains(name));
}

proof fn lemma_all_names(objects: Seq<Seq<(Seq<char>, Json)>>, name: Seq<char>)
    ensures
        label::all_names(objects).contains(name) <==> exists|o: int|
            0 <= o < objects.len() && json::names(#[trigger] objects[o]).contains(name),
    decreases objects.len(),
{
    if objects.len() > 0 {
        let d = objects.drop_last();
        let n = objects.len() - 1;
        lemma_all_names(d, name);
        same_records::lemma_concat_contains(
            label::all_names(d),
            json::names(objects.last()),
            name,
        );
        assert(objects[n] == objects.last());
        if label::all_names(d).contains(name) {
            let o = choose|o: int|
                0 <= o < d.len() && json::names(#[trigger] d[o]).contains(name);
            assert(json::names(objects[o]).contains(name));
        }
        if exists|o: int|
            0 <= o < objects.len() && json::names(#[trigger] objects[o]).contains(name) {
            let o = choose|o: int|
                0 <= o < objects.len() && json::names(#[trigger] objects[o]).contains(name);
            if o < n {
                assert(json::names(d[o]).contains(name));
            }
        }
    }
}

/// The values of a field are those that the objects have under its name, in the order of the
/// objects; an object without it adds none.
pub proof fn law_values_of_a_field(
    a: Seq<Seq<(Seq<char>, Json)>>,
    b: Seq<Seq<(Seq<char>, Json)>>,
    fields: Seq<(Seq<char>, Json)>,
    i: int,
    key: Seq<char>,
)
    ensures
        label::values_of(a + b, key) == label::values_of(a, key) + label::values_of(b, key),
        0 <= i < fields.len() && order::ascending(json::names(fields)) ==> label::values_of(
            seq![fields],
            fields[i].0,
        ) == seq![fields[i].1],
        !json::names(fields).contains(key) ==> label::values_of(seq![fields], key).len() == 0,
    decreases b.len(),
{
    reveal_with_fuel(label::values_of, 2);
    assert(seq![fields].drop_last() =~= Seq::empty());
    if 0 <= i < fields.len() && order::ascending(json::names(fields)) {
        json::lemma_lookup_at(fields, i);
        assert(label::values_of(seq![fields], fields[i].0) =~= seq![fields[i].1]);
    }
    json::lemma_lookup_some(fields, key);
    if b.len() == 0 {
        assert(a + b =~= a);
        assert(label::values_of(a, key) + label::values_of(b, key) =~= label::values_of(a, key));
    } else {
        law_values_of_a_field(a, b.drop_last(), fields, i, key);
        assert((a + b).drop_last() =~= a + b.drop_last());
        assert((a + b).last() == b.last());
        assert(label::values_of(a + b, key) =~= label::values_of(a, key) + label::values_of(
            b,
            key,
        ));
    }
}

} // verus!
