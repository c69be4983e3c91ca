//! What holds of reading an input: which objects it has, and when it is refused.

use crate::input;
use crate::input::{InputError, InputFault};
use crate::json;
use crate::json::Json;
use crate::text;
use crate::walk;
use crate::walk::{Entry, Occ, Role};
use vstd::prelude::*;

verus! {

/// The entries are the members of a collection with this name: one for each value, in their
/// order, with its fields and its position.
pub open spec fn are_members(entries: Seq<Entry>, values: Seq<Json>, name: Seq<char>) -> bool {
    &&& entries.len() == values.len()
    &&& forall|i: int|
        0 <= i < entries.len() ==> {
            &&& (#[trigger] entries[i]).index == Some(i as usize)
            &&& i <= usize::MAX
            &&& entries[i].collection
            &&& entries[i].path@.len() == 1
            &&& entries[i].path@[0]@ == name
            &&& values[i] == Json::Object(json::fields_model(entries[i].value@))
        }
}

/// Members of a collection have its name, in file mode the base name with `_ref` behind it, else
/// `root_item`.
pub open spec fn name_of_members(file_mode: bool, base: Seq<char>) -> Seq<char> {
    match file_mode {
        true => base + seq!['_', 'r', 'e', 'f'],
        false => seq!['r', 'o', 'o', 't', '_', 'i', 't', 'e', 'm'],
    }
}

pub proof fn lemma_names(file_mode: bool, base: Seq<char>)
    ensures
        input::collection_name(file_mode, base) == name_of_members(file_mode, base),
{
    reveal_strlit("_ref");
    reveal_strlit("root_item");
    assert("_ref"@ =~= seq!['_', 'r', 'e', 'f']);
    assert("root_item"@ =~= seq!['r', 'o', 'o', 't', '_', 'i', 't', 'e', 'm']);
}

proof fn lemma_members(entries: Seq<Entry>, values: Seq<Json>, name: Seq<char>)
    requires
        walk::entries_model(entries) == input::members_of_collection(name, values),
        forall|i: int| 0 <= i < values.len() ==> (#[trigger] values[i]) is Object,
    ensures
        are_members(entries, values, name),
{
    let all = walk::entries_model(entries);
    assert(entries.len() == all.len());
    assert forall|i: int| 0 <= i < entries.len() implies {
        &&& (#[trigger] entries[i]).index == Some(i as usize)
        &&& i <= usize::MAX
        &&& entries[i].collection
        &&& entries[i].path@.len() == 1
        &&& entries[i].path@[0]@ == name
        &&& values[i] == Json::Object(json::fields_model(entries[i].value@))
    } by {
        let e = entries[i];
        assert(all[i] == walk::entry_model(e));
        assert(walk::entry_model(e).indexes[0] == i as nat);
        assert(walk::entry_model(e).indexes.len() == 1);
        assert(e.index is Some);
        assert(e.index->0 == i);
        assert(walk::entry_model(e).role == Role::RootCollection);
        assert(text::models(e.path@) == seq![name]);
        assert(text::models(e.path@).len() == e.path@.len());
        assert(text::models(e.path@)[0] == e.path@[0]@);
        assert(values[i] is Object);
    }
}

/// An input that is one array of objects has one entry for each of them, in their order, with
/// its fields and its position.
pub proof fn law_arrays_give_every_member(
    values: Seq<Json>,
    items: Seq<Json>,
    file_mode: bool,
    base: Seq<char>,
    r: Result<Vec<Entry>, InputError>,
)
    requires
        input::entries_result(r) == input::json_entries(values, file_mode, base),
        values == seq![Json::Array(items)],
    ensures
        r is Ok <==> forall|i: int| 0 <= i < items.len() ==> (#[trigger] items[i]) is Object,
        r is Ok ==> are_members(r->Ok_0@, items, name_of_members(file_mode, base)),
        r is Err ==> r->Err_0 is ArrayValueNotObject,
{
    lemma_names(file_mode, base);
    assert(values[0] == Json::Array(items));
    if input::all_objects(items) {
        lemma_members(r->Ok_0@, items, name_of_members(file_mode, base));
    }
}

/// An input of several JSON values has one entry for each of them, in their order, with its
/// fields and its position, if all of them are objects; else it is refused.
pub proof fn law_several_values_give_every_one(
    values: Seq<Json>,
    file_mode: bool,
    base: Seq<char>,
    r: Result<Vec<Entry>, InputError>,
)
    requires
        input::entries_result(r) == input::json_entries(values, file_mode, base),
        values.len() != 1,
    ensures
        r is Ok <==> values.len() > 0 && forall|i: int|
            0 <= i < values.len() ==> (#[trigger] values[i]) is Object,
        r is Ok ==> are_members(r->Ok_0@, values, name_of_members(file_mode, base)),
        r is Err && values.len() == 0 ==> r->Err_0 is Empty,
        r is Err && values.len() > 0 ==> r->Err_0 is ValueNotObject,
{
    lemma_names(file_mode, base);
    if input::all_objects(values) && values.len() > 0 {
        lemma_members(r->Ok_0@, values, name_of_members(file_mode, base));
    }
}

/// An input that is one object has one entry, which is no member of a collection and has no
/// position. A scalar alone is refused.
pub proof fn law_one_object_stands_alone(
    value: Json,
    file_mode: bool,
    base: Seq<char>,
    r: Result<Vec<Entry>, InputError>,
)
    requires
        input::entries_result(r) == input::json_entries(seq![value], file_mode, base),
        !(value is Array),
    ensures
        value is Object ==> {
            &&& r is Ok
            &&& r->Ok_0@.len() == 1
            &&& !r->Ok_0@[0].collection
            &&& r->Ok_0@[0].index is None
            &&& r->Ok_0@[0].path@.len() == 1
            &&& r->Ok_0@[0].path@[0]@ == (if file_mode {
                base
            } else {
                "root"@
            })
            &&& value == Json::Object(json::fields_model(r->Ok_0@[0].value@))
        },
        !(value is Object) ==> r is Err && r->Err_0 is NotObjectOrArray,
{
    assert(seq![value][0] == value);
    if value is Object {
        let all = walk::entries_model(r->Ok_0@);
        let e = r->Ok_0@[0];
        assert(all.len() == r->Ok_0@.len());
        assert(all[0] == walk::entry_model(e));
        assert(walk::entry_model(e).role == Role::Object);
        assert(walk::entry_model(e).indexes.len() == 0);
        assert(text::models(e.path@).len() == e.path@.len());
        assert(text::models(e.path@)[0] == e.path@[0]@);
    }
}

/// Values that came in lines give one entry each, in their order, with its fields and its
/// position, if all of them are objects; else they are refused.
pub proof fn law_lines_give_every_value(
    values: Seq<Json>,
    file_mode: bool,
    base: Seq<char>,
    r: Result<Vec<Entry>, InputError>,
)
    requires
        input::entries_result(r) == input::jsonl_entries(values, file_mode, base),
    ensures
        r is Ok <==> values.len() > 0 && forall|i: int|
            0 <= i < values.len() ==> (#[trigger] values[i]) is Object,
        r is Ok ==> are_members(r->Ok_0@, values, name_of_members(file_mode, base)),
        r is Err && values.len() == 0 ==> r->Err_0 is Empty,
        r is Err && values.len() > 0 ==> r->Err_0 is JsonlValueNotObject,
{
    lemma_names(file_mode, base);
    if input::all_objects(values) && values.len() > 0 {
        lemma_members(r->Ok_0@, values, name_of_members(file_mode, base));
    }
}

/// The values that a parser handed out, up to its first error.
pub open spec fn without_errors(all: Seq<Result<Json, (bool, Seq<char>)>>) -> bool {
    forall|i: int| 0 <= i < all.len() ==> (#[trigger] all[i]) is Ok
}

proof fn lemma_good(all: Seq<Result<Json, (bool, Seq<char>)>>)
    ensures
        json::first_fault(all) is None <==> without_errors(all),
        without_errors(all) ==> json::good_values(all) == Seq::new(
            all.len(),
            |i: int| all[i]->Ok_0,
        ),
    decreases all.len(),
{
    if all.len() > 0 {
        let rest = all.drop_first();
        lemma_good(rest);
        if without_errors(all) {
            assert(all[0] is Ok);
            assert forall|i: int| 0 <= i < rest.len() implies (#[trigger] rest[i]) is Ok by {
                assert(all[i + 1] is Ok);
            }
            assert(json::good_values(all) =~= Seq::new(all.len(), |i: int| all[i]->Ok_0));
        } else {
            let j = choose|j: int| 0 <= j < all.len() && !((#[trigger] all[j]) is Ok);
            if j > 0 {
                assert(rest[j - 1] == all[j]);
                assert(!without_errors(rest));
            }
        }
    } else {
        assert(json::good_values(all) =~= Seq::new(all.len(), |i: int| all[i]->Ok_0));
    }
}

/// A JSON input has every value that the parser finds in its text, and is refused with the
/// parser's first message if it meets an error.
pub proof fn law_json_values_are_those_of_the_parser(t: Seq<char>, i: int)
    ensures
        input::json_input(t) is Ok <==> without_errors(json::json_values(t)),
        input::json_input(t) is Ok ==> input::json_input(t)->Ok_0 == Seq::new(
            json::json_values(t).len(),
            |i: int| json::json_values(t)[i]->Ok_0,
        ),
        0 <= i < json::json_values(t).len() && without_errors(json::json_values(t).take(i))
            && json::json_values(t)[i] is Err ==> input::json_input(t) == Err::<Seq<Json>, _>(
            InputFault::InvalidJson(json::json_values(t)[i]->Err_0.1),
        ),
{
    let all = json::json_values(t);
    lemma_good(all);
    if 0 <= i < all.len() && without_errors(all.take(i)) && all[i] is Err {
        lemma_first(all, i);
    }
}

proof fn lemma_first(all: Seq<Result<Json, (bool, Seq<char>)>>, i: int)
    requires
        0 <= i < all.len(),
        without_errors(all.take(i)),
        all[i] is Err,
    ensures
        json::first_fault(all) == Some(all[i]->Err_0),
    decreases all.len(),
{
    if i > 0 {
        assert(all.take(i)[0] == all[0]);
        assert(all[0] is Ok);
        let rest = all.drop_first();
        assert forall|j: int| 0 <= j < rest.take(i - 1).len() implies (#[trigger] rest.take(
            i - 1,
        )[j]) is Ok by {
            assert(all.take(i)[j + 1] is Ok);
        }
        lemma_first(rest, i - 1);
    }
}

/// What one line holds: nothing if it is blank; an error if it holds only padding; else what the
/// parser finds in it behind the NUL characters at its start.
pub proof fn law_one_line(padding: nat, record: Seq<char>, n: nat)
    requires
        record.len() > 0 ==> record[0] != '\0',
    ensures
        ({
            let line = Seq::new(padding, |i: int| '\0') + record;
            let read = input::line_values(line, n);
            let found = json::json_values(record);
            let empty = text::trimmed(record).len() == 0;
            &&& empty && padding == 0 ==> read == Ok::<Seq<Json>, InputFault>(Seq::empty())
            &&& empty && padding > 0 ==> read == Err::<Seq<Json>, _>(InputFault::NulPadding(n))
            &&& !empty && without_errors(found) ==> read == Ok::<_, InputFault>(
                Seq::new(found.len(), |i: int| found[i]->Ok_0),
            )
            &&& !empty && !without_errors(found) ==> read is Err && read->Err_0 is InvalidJsonl
                && read->Err_0->InvalidJsonl_0 == n
        }),
{
    let run = Seq::new(padding, |i: int| '\0');
    let line = run + record;
    crate::text_laws::law_ends_are_taken_off(padding, record, '\0');
    assert(input::record_of(line) == record);
    lemma_good(json::json_values(record));
    if padding == 0 {
        assert(line =~= record);
    } else {
        assert(line[0] == '\0');
        assert(!text::is_white('\0'));
        assert(text::trim_start(line) == line);
        lemma_not_blank(line);
    }
}

pub proof fn lemma_not_blank(t: Seq<char>)
    requires
        t.len() > 0,
        !text::is_white(t[0]),
    ensures
        text::trim_end(t).len() > 0,
    decreases t.len(),
{
    if text::is_white(t.last()) {
        assert(t.len() > 1);
        assert(t.drop_last()[0] == t[0]);
        lemma_not_blank(t.drop_last());
    }
}

/// The values of lines are those of all lines, one line after the other; the first line that is
/// refused has all of them refused, with its number.
pub proof fn law_lines_are_read_one_by_one(all: Seq<Seq<char>>, k: int)
    ensures
        input::lines_values(all) is Ok <==> forall|i: int|
            0 <= i < all.len() ==> input::line_values(#[trigger] all[i], (i + 1) as nat) is Ok,
        input::lines_values(all) is Ok ==> input::lines_values(all)->Ok_0 == Seq::new(
            all.len(),
            |i: int| input::line_values(all[i], (i + 1) as nat)->Ok_0,
        ).flatten(),
        0 <= k < all.len() && input::line_values(all[k], (k + 1) as nat) is Err && (forall|i: int|
            0 <= i < k ==> input::line_values(#[trigger] all[i], (i + 1) as nat) is Ok)
            ==> input::lines_values(all) == input::line_values(all[k], (k + 1) as nat),
    decreases all.len(),
{
    let parts = Seq::new(
        all.len(),
        |i: int| input::line_values(all[i], (i + 1) as nat)->Ok_0,
    );
    if all.len() > 0 {
        let d = all.drop_last();
        let n = all.len() - 1;
        law_lines_are_read_one_by_one(d, k);
        assert forall|i: int| 0 <= i < d.len() implies d[i] == #[trigger] all[i] by {}
        let less = Seq::new(d.len(), |i: int| input::line_values(d[i], (i + 1) as nat)->Ok_0);
        assert(parts.drop_last() =~= less);
        parts.lemma_flatten_and_flatten_alt_are_equivalent();
        less.lemma_flatten_and_flatten_alt_are_equivalent();
        assert(all[n] == all.last());
        assert(input::line_values(all[n], (n + 1) as nat) == input::line_values(
            all.last(),
            all.len(),
        ));
        if input::lines_values(d) is Ok && !(input::line_values(all[n], (n + 1) as nat) is Ok) {
            assert(input::lines_values(all) is Err);
        }
        if !(input::lines_values(d) is Ok) {
            let j = choose|j: int|
                0 <= j < d.len() && !(input::line_values(#[trigger] d[j], (j + 1) as nat) is Ok);
            assert(d[j] == all[j]);
        }
    } else {
        assert(parts =~= Seq::empty());
        parts.lemma_flatten_and_flatten_alt_are_equivalent();
    }
}

/// A text that is made of lines, each with a line feed behind it, with or without a carriage
/// return.
pub open spec fn made_of(all: Seq<Seq<char>>, carriage: bool) -> Seq<char>
    decreases all.len(),
{
    if all.len() == 0 {
        Seq::empty()
    } else {
        made_of(all.drop_last(), carriage) + all.last() + if carriage {
            seq!['\r', '\n']
        } else {
            seq!['\n']
        }
    }
}

/// A line holds no line feed and ends with no carriage return.
pub open spec fn plain_line(line: Seq<char>) -> bool {
    &&& !line.contains('\n')
    &&& line.len() > 0 ==> line.last() != '\r'
}

proof fn lemma_line_split(t: Seq<char>, more: Seq<char>)
    requires
        !more.contains('\n'),
    ensures
        input::line_split(t + more).done == input::line_split(t).done,
        input::line_split(t + more).current == input::line_split(t).current + more,
    decreases more.len(),
{
    if more.len() == 0 {
        assert(t + more =~= t);
        assert(input::line_split(t).current + more =~= input::line_split(t).current);
    } else {
        let d = more.drop_last();
        assert forall|i: int| 0 <= i < d.len() implies d[i] != '\n' by {
            assert(more.contains(more[i]));
        }
        lemma_line_split(t, d);
        assert((t + more).drop_last() =~= t + d);
        assert(more.contains(more[more.len() - 1]));
        assert(input::line_split(t).current + more =~= (input::line_split(t).current + d).push(
            more.last(),
        ));
    }
}

/// A text made of lines has exactly these lines, with either line end; a last line without a
/// line end is one of them too.
pub proof fn law_lines_are_found_again(all: Seq<Seq<char>>, carriage: bool, last: Seq<char>)
    requires
        forall|i: int| 0 <= i < all.len() ==> plain_line(#[trigger] all[i]),
        plain_line(last),
    ensures
        input::lines(made_of(all, carriage)) == all,
        last.len() > 0 ==> input::lines(made_of(all, carriage) + last) == all.push(last),
{
    lemma_made_of(all, carriage);
    lemma_line_split(made_of(all, carriage), last);
    assert(Seq::<char>::empty() + last =~= last);
}

proof fn lemma_made_of(all: Seq<Seq<char>>, carriage: bool)
    requires
        forall|i: int| 0 <= i < all.len() ==> plain_line(#[trigger] all[i]),
    ensures
        input::line_split(made_of(all, carriage)).done == all,
        input::line_split(made_of(all, carriage)).current == Seq::<char>::empty(),
    decreases all.len(),
{
    let t = made_of(all, carriage);
    if all.len() > 0 {
        let d = all.drop_last();
        let line = all[all.len() - 1];
        assert forall|i: int| 0 <= i < d.len() implies plain_line(#[trigger] d[i]) by {
            assert(plain_line(all[i]));
        }
        lemma_made_of(d, carriage);
        let front = made_of(d, carriage);
        let content = if carriage {
            line.push('\r')
        } else {
            line
        };
        assert(plain_line(line));
        assert(!content.contains('\n')) by {
            assert forall|i: int| 0 <= i < content.len() implies content[i] != '\n' by {
                if i < line.len() {
                    assert(line.contains(line[i]));
                }
            }
        }
        lemma_line_split(front, content);
        assert(t.drop_last() =~= front + content);
        assert(t.last() == '\n');
        assert(Seq::<char>::empty() + content =~= content);
        assert(input::without_return(content) =~= line);
        assert(d.push(line) =~= all);
    }
}

/// An input that holds white space only is refused as empty. In line mode an input is read by
/// lines alone. Else it is read as JSON values if it can be, and by lines only if it cannot; if
/// that fails too, it is refused with what was wrong both times.
pub proof fn law_modes(t: Seq<char>, jsonl_mode: bool, file_mode: bool, base: Seq<char>)
    ensures
        text::trimmed(t).len() == 0 ==> input::input_entries(t, jsonl_mode, file_mode, base)
            == Err::<Seq<Occ<Seq<Seq<char>>>>, _>(InputFault::Empty),
        ({
            let read = input::input_entries(t, jsonl_mode, file_mode, base);
            let whole = input::json_input(t);
            let lines = input::lines_values(input::lines(t));
            text::trimmed(t).len() > 0 ==> {
                &&& jsonl_mode && lines is Ok ==> read == input::jsonl_entries(
                    lines->Ok_0,
                    file_mode,
                    base,
                )
                &&& jsonl_mode && lines is Err ==> read is Err && read->Err_0 == lines->Err_0
                &&& !jsonl_mode && whole is Ok ==> read == input::json_entries(
                    whole->Ok_0,
                    file_mode,
                    base,
                )
                &&& !jsonl_mode && whole is Err && lines is Ok ==> read == input::jsonl_entries(
                    lines->Ok_0,
                    file_mode,
                    base,
                )
                &&& !jsonl_mode && whole is Err && lines is Err ==> {
                    &&& read is Err
                    &&& whole->Err_0 is InvalidJson
                    &&& read->Err_0 == InputFault::InvalidJsonAndJsonl(
                        whole->Err_0->InvalidJson_0,
                        input::fault_message(lines->Err_0),
                    )
                }
            }
        }),
{
}

/// An input whose text holds one array of objects, and nothing else, has one entry for each of
/// them, in their order, with its fields and its position.
pub proof fn law_array_inputs_give_every_member(
    t: Seq<char>,
    items: Seq<Json>,
    file_mode: bool,
    base: Seq<char>,
    r: Result<Vec<Entry>, InputError>,
)
    requires
        input::entries_result(r) == input::input_entries(t, false, file_mode, base),
        text::trimmed(t).len() > 0,
        json::json_values(t) == seq![Ok::<_, (bool, Seq<char>)>(Json::Array(items))],
        forall|i: int| 0 <= i < items.len() ==> (#[trigger] items[i]) is Object,
    ensures
        r is Ok,
        are_members(r->Ok_0@, items, name_of_members(file_mode, base)),
{
    let all = json::json_values(t);
    law_json_values_are_those_of_the_parser(t, 0);
    assert(without_errors(all));
    assert(input::json_input(t)->Ok_0 =~= seq![Json::Array(items)]);
    law_arrays_give_every_member(input::json_input(t)->Ok_0, items, file_mode, base, r);
}

/// What each refusal says.
pub proof fn law_messages(n: nat, m: Seq<char>, l: Seq<char>)
    ensures
        input::fault_message(InputFault::Empty) == "input is empty"@,
        input::fault_message(InputFault::InvalidPath(m)) == "invalid input path: "@ + m,
        input::fault_message(InputFault::InvalidJson(m)) == "invalid JSON input"@,
        input::fault_message(InputFault::InvalidJsonl(n, m)) == "invalid JSONL input at line "@
            + text::decimal(n),
        input::fault_message(InputFault::NulPadding(n)) == "invalid JSONL input at line "@
            + text::decimal(n) + ": record contains only NUL padding"@,
        input::fault_message(InputFault::InvalidJsonAndJsonl(m, l))
            == "invalid JSON input; JSONL fallback also failed: "@ + l,
        input::fault_message(InputFault::JsonlValueNotObject) == "JSONL values must be objects"@,
        input::fault_message(InputFault::ArrayValueNotObject)
            == "top-level array values must be objects"@,
        input::fault_message(InputFault::ValueNotObject) == "top-level JSON values must be objects"@,
        input::fault_message(InputFault::NotObjectOrArray)
            == "top-level JSON value must be an object or array"@,
        input::fault_cause(InputFault::InvalidJson(m)) == Some(m),
        input::fault_cause(InputFault::InvalidJsonl(n, m)) == Some(m),
        input::fault_cause(InputFault::InvalidJsonAndJsonl(m, l)) == Some(m),
{
}

/// The base name of a file is its name without its extension; only `.jsonl` says that it holds
/// lines.
pub proof fn law_file_names(stem: Seq<char>, extension: Seq<char>)
    ensures
        input::file_base(stem + ".jsonl"@) == (stem, true),
        input::file_base(stem + ".json"@) == (stem, false),
        !extension.contains('.') && stem.len() > 0 && extension != "json"@ && extension != "jsonl"@
            ==> input::file_base(stem + seq!['.'] + extension) == (stem, false),
        !stem.contains('.') ==> input::file_base(stem) == (stem, false),
        !extension.contains('.') && extension != "json"@ && extension != "jsonl"@
            ==> input::file_base(seq!['.'] + extension) == (seq!['.'] + extension, false),
{
    reveal_strlit(".jsonl");
    reveal_strlit(".json");
    reveal_strlit("json");
    reveal_strlit("jsonl");
    let a = stem + ".jsonl"@;
    assert(a.skip(a.len() - ".jsonl"@.len()) =~= ".jsonl"@);
    assert(a.take(a.len() - ".jsonl"@.len()) =~= stem);
    let b = stem + ".json"@;
    assert(b.skip(b.len() - ".json"@.len()) =~= ".json"@);
    assert(b.take(b.len() - ".json"@.len()) =~= stem);
    assert(b.last() == 'n');
    if text::has_suffix(b, ".jsonl"@) {
        assert(b.skip(b.len() - 6)[5] == 'l');
    }
    if !extension.contains('.') && stem.len() > 0 && extension != "json"@ && extension != "jsonl"@ {
        let c = stem + seq!['.'] + extension;
        lemma_last_dot(stem, extension);
        assert(c.take(stem.len() as int) =~= stem);
        if text::has_suffix(c, ".jsonl"@) {
            lemma_suffix(stem, extension, ".jsonl"@);
            assert(".jsonl"@.drop_first() =~= "jsonl"@);
        }
        if text::has_suffix(c, ".json"@) {
            lemma_suffix(stem, extension, ".json"@);
            assert(".json"@.drop_first() =~= "json"@);
        }
    }
    if !extension.contains('.') && extension != "json"@ && extension != "jsonl"@ {
        let none = Seq::<char>::empty();
        let c = seq!['.'] + extension;
        assert(none + seq!['.'] + extension =~= c);
        lemma_last_dot(none, extension);
        if text::has_suffix(c, ".jsonl"@) {
            lemma_suffix(none, extension, ".jsonl"@);
            assert(".jsonl"@.drop_first() =~= "jsonl"@);
        }
        if text::has_suffix(c, ".json"@) {
            lemma_suffix(none, extension, ".json"@);
            assert(".json"@.drop_first() =~= "json"@);
        }
    }
    if !stem.contains('.') {
        lemma_no_dot(stem);
        if text::has_suffix(stem, ".jsonl"@) {
            assert(stem.skip(stem.len() - 6)[0] == '.');
            assert(stem.contains(stem[stem.len() - 6]));
        }
        if text::has_suffix(stem, ".json"@) {
            assert(stem.skip(stem.len() - 5)[0] == '.');
            assert(stem.contains(stem[stem.len() - 5]));
        }
    }
}

proof fn lemma_no_dot(t: Seq<char>)
    requires
        !t.contains('.'),
    ensures
        input::last_place(t, '.') == -1,
    decreases t.len(),
{
    if t.len() > 0 {
        assert(t.contains(t[t.len() - 1]));
        assert forall|i: int| 0 <= i < t.drop_last().len() implies t.drop_last()[i] != '.' by {
            assert(t.contains(t[i]));
        }
        lemma_no_dot(t.drop_last());
    }
}

proof fn lemma_last_dot(stem: Seq<char>, extension: Seq<char>)
    requires
        !extension.contains('.'),
    ensures
        input::last_place(stem + seq!['.'] + extension, '.') == stem.len(),
    decreases extension.len(),
{
    let t = stem + seq!['.'] + extension;
    if extension.len() > 0 {
        assert(extension.contains(extension[extension.len() - 1]));
        let d = extension.drop_last();
        assert forall|i: int| 0 <= i < d.len() implies d[i] != '.' by {
            assert(extension.contains(extension[i]));
        }
        lemma_last_dot(stem, d);
        assert(t.drop_last() =~= stem + seq!['.'] + d);
    } else {
        assert(t.last() == '.');
    }
}

/// A suffix with its only dot at its start is a dot and the extension.
proof fn lemma_suffix(stem: Seq<char>, extension: Seq<char>, suffix: Seq<char>)
    requires
        !extension.contains('.'),
        suffix.len() > 0,
        suffix[0] == '.',
        !suffix.drop_first().contains('.'),
        text::has_suffix(stem + seq!['.'] + extension, suffix),
    ensures
        suffix.drop_first() == extension,
{
    let t = stem + seq!['.'] + extension;
    let n = t.len() - suffix.len();
    let tail = t.skip(n);
    assert(tail == suffix);
    if extension.len() + 1 > suffix.len() {
        assert(tail[0] == extension[n - stem.len() - 1]);
        assert(extension.contains(extension[n - stem.len() - 1]));
    } else if extension.len() + 1 < suffix.len() {
        let i = stem.len() - n;
        assert(tail[i] == '.');
        assert(suffix.drop_first()[i - 1] == '.');
        assert(suffix.drop_first().contains(suffix.drop_first()[i - 1]));
    } else {
        assert(tail.drop_first() =~= extension);
    }
}

} // verus!
