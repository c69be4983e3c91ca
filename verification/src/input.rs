//! Reading the input: JSON values or lines of JSON, and the top-level objects in them.

use crate::json;
use crate::json::{read_json, Json, JsonValue};
use crate::text;
use crate::text::{chars_of, decimal_text, ends_with, is_blank, trim_start_char};
use crate::walk;
use crate::walk::{Entry, Occ, Role};
use vstd::prelude::*;

verus! {

/// Why the input was refused. A parser's message stands beside the place that it is about.
#[derive(Debug)]
pub enum InputError {
    Empty,
    InvalidPath(String),
    InvalidJson(String),
    InvalidJsonl(u64, String),
    NulPadding(u64),
    InvalidJsonAndJsonl(String, String),
    JsonlValueNotObject,
    ArrayValueNotObject,
    ValueNotObject,
    NotObjectOrArray,
}

pub ghost enum InputFault {
    Empty,
    InvalidPath(Seq<char>),
    InvalidJson(Seq<char>),
    InvalidJsonl(nat, Seq<char>),
    NulPadding(nat),
    InvalidJsonAndJsonl(Seq<char>, Seq<char>),
    JsonlValueNotObject,
    ArrayValueNotObject,
    ValueNotObject,
    NotObjectOrArray,
}

pub open spec fn error_model(e: InputError) -> InputFault {
    match e {
        InputError::Empty => InputFault::Empty,
        InputError::InvalidPath(p) => InputFault::InvalidPath(p@),
        InputError::InvalidJson(m) => InputFault::InvalidJson(m@),
        InputError::InvalidJsonl(n, m) => InputFault::InvalidJsonl(n as nat, m@),
        InputError::NulPadding(n) => InputFault::NulPadding(n as nat),
        InputError::InvalidJsonAndJsonl(m, l) => InputFault::InvalidJsonAndJsonl(m@, l@),
        InputError::JsonlValueNotObject => InputFault::JsonlValueNotObject,
        InputError::ArrayValueNotObject => InputFault::ArrayValueNotObject,
        InputError::ValueNotObject => InputFault::ValueNotObject,
        InputError::NotObjectOrArray => InputFault::NotObjectOrArray,
    }
}

/// What a fault is reported as.
pub open spec fn fault_message(f: InputFault) -> Seq<char> {
    match f {
        InputFault::Empty => "input is empty"@,
        InputFault::InvalidPath(p) => "invalid input path: "@ + p,
        InputFault::InvalidJson(_) => "invalid JSON input"@,
        InputFault::InvalidJsonl(n, _) => "invalid JSONL input at line "@ + text::decimal(n),
        InputFault::NulPadding(n) => "invalid JSONL input at line "@ + text::decimal(n)
            + ": record contains only NUL padding"@,
        InputFault::InvalidJsonAndJsonl(_, l) =>
            "invalid JSON input; JSONL fallback also failed: "@ + l,
        InputFault::JsonlValueNotObject => "JSONL values must be objects"@,
        InputFault::ArrayValueNotObject => "top-level array values must be objects"@,
        InputFault::ValueNotObject => "top-level JSON values must be objects"@,
        InputFault::NotObjectOrArray => "top-level JSON value must be an object or array"@,
    }
}

/// What the parser said, where it was the parser that refused.
pub open spec fn fault_cause(f: InputFault) -> Option<Seq<char>> {
    match f {
        InputFault::InvalidJson(m) => Some(m),
        InputFault::InvalidJsonl(_, m) => Some(m),
        InputFault::InvalidJsonAndJsonl(m, _) => Some(m),
        _ => None,
    }
}

impl InputError {
    pub fn message(&self) -> (r: String)
        ensures
            r@ == fault_message(error_model(*self)),
    {
        match self {
            InputError::Empty => "input is empty".to_string(),
            InputError::InvalidPath(p) => {
                let mut m = "invalid input path: ".to_string();
                m.append(p.as_str());
                m
            },
            InputError::InvalidJson(_) => "invalid JSON input".to_string(),
            InputError::InvalidJsonl(n, _) => {
                let mut m = "invalid JSONL input at line ".to_string();
                m.append(decimal_text(*n as u128).as_str());
                m
            },
            InputError::NulPadding(n) => {
                let mut m = "invalid JSONL input at line ".to_string();
                m.append(decimal_text(*n as u128).as_str());
                m.append(": record contains only NUL padding");
                m
            },
            InputError::InvalidJsonAndJsonl(_, l) => {
                let mut m = "invalid JSON input; JSONL fallback also failed: ".to_string();
                m.append(l.as_str());
                m
            },
            InputError::JsonlValueNotObject => "JSONL values must be objects".to_string(),
            InputError::ArrayValueNotObject => "top-level array values must be objects".to_string(),
            InputError::ValueNotObject => "top-level JSON values must be objects".to_string(),
            InputError::NotObjectOrArray => {
                "top-level JSON value must be an object or array".to_string()
            },
        }
    }

    pub fn cause(&self) -> (r: Option<String>)
        ensures
            crate::records::text_option(r) == fault_cause(error_model(*self)),
    {
        match self {
            InputError::InvalidJson(m) => Some(m.clone()),
            InputError::InvalidJsonl(_, m) => Some(m.clone()),
            InputError::InvalidJsonAndJsonl(m, _) => Some(m.clone()),
            _ => None,
        }
    }
}

/// Where `c` stands last in a text, or -1.
pub open spec fn last_place(t: Seq<char>, c: char) -> int
    decreases t.len(),
{
    if t.len() == 0 {
        -1
    } else if t.last() == c {
        t.len() - 1
    } else {
        last_place(t.drop_last(), c)
    }
}

/// A file name without its extension. A name that starts with its only dot has none.
pub open spec fn without_extension(name: Seq<char>) -> Seq<char> {
    let dot = last_place(name, '.');
    if dot > 0 {
        name.take(dot)
    } else {
        name
    }
}

/// The base name and the kind of an input file: the extension is taken off, `.jsonl` and
/// `.json` also from a name that starts with it.
pub open spec fn file_base(name: Seq<char>) -> (Seq<char>, bool) {
    if text::has_suffix(name, ".jsonl"@) {
        (name.take(name.len() - ".jsonl"@.len()), true)
    } else if text::has_suffix(name, ".json"@) {
        (name.take(name.len() - ".json"@.len()), false)
    } else {
        (without_extension(name), false)
    }
}

fn strip_extension(name: &str) -> (r: String)
    ensures
        r@ == without_extension(name@),
{
    let chars = chars_of(name);
    let n = chars.len();
    let mut i: usize = n;
    assert(name@.take(n as int) =~= name@);
    while i > 0
        invariant
            chars@ == name@,
            n == name@.len(),
            i <= n,
            last_place(name@, '.') == last_place(name@.take(i as int), '.'),
        decreases i,
    {
        assert(name@.take(i as int).drop_last() =~= name@.take(i - 1));
        assert(name@.take(i as int).last() == name@[i - 1]);
        i = i - 1;
        if chars[i] == '.' {
            if i == 0 {
                return name.to_string();
            }
            assert(name@.subrange(0, i as int) =~= name@.take(i as int));
            return name.substring_char(0, i).to_string();
        }
    }
    name.to_string()
}

fn strip_suffix(name: &str, suffix: &str) -> (r: String)
    requires
        text::has_suffix(name@, suffix@),
    ensures
        r@ == name@.take(name@.len() - suffix@.len()),
{
    let n = name.unicode_len();
    let m = suffix.unicode_len();
    assert(name@.subrange(0, n - m) =~= name@.take(n - m));
    name.substring_char(0, n - m).to_string()
}

/// The base name of an input file, and whether it holds lines of JSON. `file_name` is the last
/// part of the path `shown`, if it has one.
pub fn input_file_base_and_jsonl(file_name: Option<&str>, shown: &str) -> (r: Result<
    (String, bool),
    InputError,
>)
    ensures
        match file_name {
            None => r is Err && error_model(r->Err_0) == InputFault::InvalidPath(shown@),
            Some(name) => r is Ok && (r->Ok_0.0@, r->Ok_0.1) == file_base(name@),
        },
{
    match file_name {
        None => Err(InputError::InvalidPath(shown.to_string())),
        Some(name) => if ends_with(name, ".jsonl") {
            Ok((strip_suffix(name, ".jsonl"), true))
        } else if ends_with(name, ".json") {
            Ok((strip_suffix(name, ".json"), false))
        } else {
            Ok((strip_extension(name), false))
        },
    }
}

/// A text read up to some place: the finished lines, and the line being read.
pub ghost struct LineSplit {
    pub done: Seq<Seq<char>>,
    pub current: Seq<char>,
}

pub open spec fn without_return(line: Seq<char>) -> Seq<char> {
    if line.len() > 0 && line.last() == '\r' {
        line.drop_last()
    } else {
        line
    }
}

pub open spec fn line_split(t: Seq<char>) -> LineSplit
    decreases t.len(),
{
    if t.len() == 0 {
        LineSplit { done: Seq::empty(), current: Seq::empty() }
    } else {
        let s = line_split(t.drop_last());
        if t.last() == '\n' {
            LineSplit { done: s.done.push(without_return(s.current)), current: Seq::empty() }
        } else {
            LineSplit { current: s.current.push(t.last()), ..s }
        }
    }
}

/// The lines of a text: line ends are `\n` or `\r\n`, and the last one may be missing.
pub open spec fn lines(t: Seq<char>) -> Seq<Seq<char>> {
    let s = line_split(t);
    if s.current.len() > 0 {
        s.done.push(s.current)
    } else {
        s.done
    }
}

fn lines_of<'a>(input: &'a str) -> (r: Vec<String>)
    ensures
        text::models(r@) == lines(input@),
{
    let mut done: Vec<String> = Vec::new();
    let mut current: Vec<char> = Vec::new();
    assert(input@.take(0) =~= Seq::empty());
    assert(text::models(done@) =~= Seq::empty());
    for c in it: input.chars()
        invariant
            it.seq() == input@,
            text::models(done@) == line_split(input@.take(it.index() as int)).done,
            current@ == line_split(input@.take(it.index() as int)).current,
    {
        proof {
            let n = it.index() as int;
            assert(input@.take(n + 1).drop_last() =~= input@.take(n));
            assert(input@.take(n + 1).last() == c);
        }
        if c == '\n' {
            let ghost before = done@;
            let ghost line = current@;
            if current.len() > 0 && current[current.len() - 1] == '\r' {
                current.pop();
            }
            assert(current@ =~= without_return(line));
            done.push(text_of(&current));
            assert(text::models(done@) =~= text::models(before).push(current@));
            current = Vec::new();
        } else {
            current.push(c);
        }
    }
    assert(input@.take(input@.len() as int) =~= input@);
    if current.len() > 0 {
        let ghost before = done@;
        done.push(text_of(&current));
        assert(text::models(done@) =~= text::models(before).push(current@));
    }
    done
}

fn text_of(chars: &Vec<char>) -> (r: String)
    ensures
        r@ == chars@,
{
    let mut out = String::new();
    let mut i: usize = 0;
    while i < chars.len()
        invariant
            i <= chars@.len(),
            out@ == chars@.take(i as int),
        decreases chars@.len() - i,
    {
        out.push(chars[i]);
        assert(chars@.take(i + 1) =~= chars@.take(i as int).push(chars@[i as int]));
        i = i + 1;
    }
    assert(chars@.take(chars@.len() as int) =~= chars@);
    out
}

/// Values that were read from a text, unless reading them met an error.
pub open spec fn text_values(found: Seq<Json>, fault: Option<(bool, Seq<char>)>) -> Result<
    Seq<Json>,
    InputFault,
> {
    match fault {
        Some(f) => Err(InputFault::InvalidJson(f.1)),
        None => Ok(found),
    }
}

/// The values of a text that holds JSON values one after the other.
pub open spec fn json_input(t: Seq<char>) -> Result<Seq<Json>, InputFault> {
    text_values(json::good_values(json::json_values(t)), json::first_fault(json::json_values(t)))
}

pub open spec fn values_result(r: Result<Vec<JsonValue>, InputError>) -> Result<
    Seq<Json>,
    InputFault,
> {
    match r {
        Ok(values) => Ok(json::items_model(values@)),
        Err(e) => Err(error_model(e)),
    }
}

/// The values that were read from a text; refused if reading them met an error.
pub fn checked_text_values(values: Vec<JsonValue>, fault: Option<(bool, String)>) -> (r: Result<
    Vec<JsonValue>,
    InputError,
>)
    ensures
        values_result(r) == text_values(json::items_model(values@), json::fault_model(fault)),
        r matches Ok(all) ==> all == values,
{
    match fault {
        Some(f) => Err(InputError::InvalidJson(f.1)),
        None => Ok(values),
    }
}

/// All values hold their fields in order.
pub open spec fn all_tidy(values: Seq<Json>) -> bool {
    forall|i: int| 0 <= i < values.len() ==> json::tidy(#[trigger] values[i])
}

pub fn parse_json_stream(input: &str) -> (r: Result<Vec<JsonValue>, InputError>)
    ensures
        values_result(r) == json_input(input@),
        r matches Ok(values) ==> all_tidy(json::items_model(values@)),
{
    let (values, fault) = read_json(input);
    checked_text_values(values, fault)
}

/// A line without the NUL characters at its start.
pub open spec fn record_of(line: Seq<char>) -> Seq<char> {
    text::without_head(line, '\0')
}

/// A record that holds white space only.
pub open spec fn blank(t: Seq<char>) -> bool {
    text::trimmed(t).len() == 0
}

/// Values that were read from the `n`th line, unless reading them met an error.
pub open spec fn record_values(
    found: Seq<Json>,
    fault: Option<(bool, Seq<char>)>,
    n: nat,
) -> Result<Seq<Json>, InputFault> {
    match fault {
        Some(f) => Err(InputFault::InvalidJsonl(n, f.1)),
        None => Ok(found),
    }
}

/// The values that were read from the `number`th line; refused if reading them met an error.
pub fn checked_record_values(
    values: Vec<JsonValue>,
    fault: Option<(bool, String)>,
    number: u64,
) -> (r: Result<Vec<JsonValue>, InputError>)
    ensures
        values_result(r) == record_values(
            json::items_model(values@),
            json::fault_model(fault),
            number as nat,
        ),
        r matches Ok(all) ==> all == values,
{
    match fault {
        Some(f) => Err(InputError::InvalidJsonl(number, f.1)),
        None => Ok(values),
    }
}

/// The values of one line, the line being the `n`th.
pub open spec fn line_values(line: Seq<char>, n: nat) -> Result<Seq<Json>, InputFault> {
    let record = record_of(line);
    if blank(record) {
        if blank(line) {
            Ok(Seq::empty())
        } else {
            Err(InputFault::NulPadding(n))
        }
    } else {
        record_values(
            json::good_values(json::json_values(record)),
            json::first_fault(json::json_values(record)),
            n,
        )
    }
}

/// The values of lines.
pub open spec fn lines_values(all: Seq<Seq<char>>) -> Result<Seq<Json>, InputFault>
    decreases all.len(),
{
    if all.len() == 0 {
        Ok(Seq::empty())
    } else {
        match lines_values(all.drop_last()) {
            Err(fault) => Err(fault),
            Ok(values) => match line_values(all.last(), all.len()) {
                Err(fault) => Err(fault),
                Ok(more) => Ok(values + more),
            },
        }
    }
}

proof fn lemma_lines_fault_stays(all: Seq<Seq<char>>, n: int)
    requires
        0 <= n <= all.len(),
    ensures
        lines_values(all.take(n)) is Err ==> lines_values(all) == lines_values(all.take(n)),
    decreases all.len() - n,
{
    if n == all.len() {
        assert(all.take(n) =~= all);
    } else {
        lemma_lines_fault_stays(all, n + 1);
        assert(all.take(n + 1).drop_last() =~= all.take(n));
    }
}

/// No line is read otherwise if space follows it.
pub open spec fn lines_end_freely(all: Seq<Seq<char>>) -> bool {
    forall|i: int|
        0 <= i < all.len() ==> blank(record_of(#[trigger] all[i])) || json::ends_freely(
            record_of(all[i]),
        )
}

/// The values of a text that holds JSON values in lines. NUL characters at the start of a line
/// are padding.
pub fn parse_jsonl_stream(input: &str) -> (r: Result<Vec<JsonValue>, InputError>)
    ensures
        values_result(r) == lines_values(lines(input@)),
        r matches Ok(values) ==> all_tidy(json::items_model(values@)) && lines_end_freely(
            lines(input@),
        ),
{
    let split = lines_of(input);
    let ghost all = lines(input@);
    let mut values: Vec<JsonValue> = Vec::new();
    let mut i: usize = 0;
    proof {
        assert(all.take(0) =~= Seq::empty());
        assert(json::items_model(values@) =~= Seq::empty());
    }
    while i < split.len()
        invariant
            all == lines(input@),
            text::models(split@) == all,
            i <= split@.len(),
            lines_values(all.take(i as int)) == Ok::<_, InputFault>(json::items_model(values@)),
            all_tidy(json::items_model(values@)),
            lines_end_freely(all.take(i as int)),
        decreases split@.len() - i,
    {
        let line = split[i].as_str();
        let ghost before = values@;
        proof {
            assert(all[i as int] == line@);
            assert(all.take(i + 1).drop_last() =~= all.take(i as int));
            assert(all.take(i + 1).last() == line@);
            lemma_lines_fault_stays(all, i + 1);
        }
        let record = trim_start_char(line, '\0');
        if is_blank(record) {
            if !is_blank(line) {
                return Err(InputError::NulPadding(i as u64 + 1));
            }
            assert(json::items_model(before) + Seq::<Json>::empty() =~= json::items_model(before));
        } else {
            let (found, fault) = read_json(record);
            let mut more = match checked_record_values(found, fault, i as u64 + 1) {
                Ok(more) => more,
                Err(e) => {
                    return Err(e);
                },
            };
            let ghost added = more@;
            values.append(&mut more);
            proof {
                let whole = json::items_model(values@);
                assert(whole =~= json::items_model(before) + json::items_model(added));
                assert forall|j: int| 0 <= j < whole.len() implies json::tidy(
                    #[trigger] whole[j],
                ) by {
                    if j < before.len() {
                        assert(whole[j] == json::items_model(before)[j]);
                    } else {
                        assert(whole[j] == json::items_model(added)[j - before.len()]);
                    }
                }
            }
        }
        i = i + 1;
    }
    assert(all.take(all.len() as int) =~= all);
    Ok(values)
}

/// Every value is an object.
pub open spec fn all_objects(values: Seq<Json>) -> bool {
    forall|i: int| 0 <= i < values.len() ==> (#[trigger] values[i]) is Object
}

/// The members of a collection named `root`.
pub open spec fn members_of_collection(root: Seq<char>, values: Seq<Json>) -> Seq<
    Occ<Seq<Seq<char>>>,
> {
    Seq::new(
        values.len(),
        |i: int|
            Occ {
                at: seq![root],
                fields: values[i]->Object_0,
                role: Role::RootCollection,
                indexes: seq![i as nat],
            },
    )
}

/// The members of a collection named `root`; none if a value is no object.
fn collection_entries(root: &String, values: Vec<JsonValue>) -> (r: Option<Vec<Entry>>)
    ensures
        r is Some <==> all_objects(json::items_model(values@)),
        r matches Some(entries) ==> walk::entries_model(entries@) == members_of_collection(
            root@,
            json::items_model(values@),
        ),
{
    let ghost all = values@;
    let ghost models = json::items_model(all);
    let ghost target = members_of_collection(root@, models);
    let mut entries: Vec<Entry> = Vec::new();
    for value in it: values
        invariant
            it.seq() == all,
            models == json::items_model(all),
            target == members_of_collection(root@, models),
            entries@.len() == it.index(),
            forall|j: int| 0 <= j < entries@.len() ==> (#[trigger] models[j]) is Object,
            forall|j: int|
                0 <= j < entries@.len() ==> walk::entry_model(#[trigger] entries@[j]) == target[j],
    {
        let ghost n = it.index() as int;
        assert(models[n] == json::model(value));
        let index = entries.len();
        match value {
            JsonValue::Object(fields) => {
                proof {
                    json::lemma_model_object(fields);
                }
                let mut path: Vec<String> = Vec::new();
                path.push(root.clone());
                let entry = Entry { path, index: Some(index), collection: true, value: fields };
                proof {
                    assert(text::models(entry.path@) =~= seq![root@]);
                    assert(walk::entry_model(entry) == target[n]);
                }
                entries.push(entry);
            },
            _ => {
                return None;
            },
        }
    }
    assert(walk::entries_model(entries@) =~= target);
    Some(entries)
}

/// The name of the collection of top-level values.
pub open spec fn collection_name(file_mode: bool, base: Seq<char>) -> Seq<char> {
    if file_mode {
        base + "_ref"@
    } else {
        "root_item"@
    }
}

/// The name of a single top-level object.
pub open spec fn object_name(file_mode: bool, base: Seq<char>) -> Seq<char> {
    if file_mode {
        base
    } else {
        "root"@
    }
}

pub fn root_collection_name(file_mode: bool, base: &str) -> (r: String)
    ensures
        r@ == collection_name(file_mode, base@),
{
    if file_mode {
        let mut root = base.to_string();
        root.append("_ref");
        root
    } else {
        "root_item".to_string()
    }
}

/// The top-level objects of values that came in lines.
pub open spec fn jsonl_entries(values: Seq<Json>, file_mode: bool, base: Seq<char>) -> Result<
    Seq<Occ<Seq<Seq<char>>>>,
    InputFault,
> {
    if values.len() == 0 {
        Err(InputFault::Empty)
    } else if all_objects(values) {
        Ok(members_of_collection(collection_name(file_mode, base), values))
    } else {
        Err(InputFault::JsonlValueNotObject)
    }
}

pub open spec fn entries_result(r: Result<Vec<Entry>, InputError>) -> Result<
    Seq<Occ<Seq<Seq<char>>>>,
    InputFault,
> {
    match r {
        Ok(entries) => Ok(walk::entries_model(entries@)),
        Err(e) => Err(error_model(e)),
    }
}

/// All objects hold their fields in order.
pub open spec fn tidy_entries(entries: Seq<Occ<Seq<Seq<char>>>>) -> bool {
    forall|i: int| 0 <= i < entries.len() ==> json::tidy_fields((#[trigger] entries[i]).fields)
}

proof fn lemma_tidy_members(root: Seq<char>, values: Seq<Json>)
    requires
        all_objects(values),
        all_tidy(values),
    ensures
        tidy_entries(members_of_collection(root, values)),
{
    let members = members_of_collection(root, values);
    assert forall|i: int| 0 <= i < members.len() implies json::tidy_fields(
        (#[trigger] members[i]).fields,
    ) by {
        assert(values[i] is Object);
        assert(json::tidy(values[i]));
        assert(values[i] == Json::Object(members[i].fields));
    }
}

pub fn normalize_jsonl_values(values: Vec<JsonValue>, file_mode: bool, base: &str) -> (r: Result<
    Vec<Entry>,
    InputError,
>)
    ensures
        entries_result(r) == jsonl_entries(json::items_model(values@), file_mode, base@),
        r matches Ok(entries) ==> all_tidy(json::items_model(values@)) ==> tidy_entries(
            walk::entries_model(entries@),
        ),
{
    let ghost models = json::items_model(values@);
    proof {
        if all_objects(models) && all_tidy(models) {
            lemma_tidy_members(collection_name(file_mode, base@), models);
        }
    }
    if values.len() == 0 {
        return Err(InputError::Empty);
    }
    let root = root_collection_name(file_mode, base);
    match collection_entries(&root, values) {
        Some(entries) => Ok(entries),
        None => Err(InputError::JsonlValueNotObject),
    }
}

/// The top-level objects of JSON values: a single object, the members of a single array, or
/// all of several values.
pub open spec fn json_entries(values: Seq<Json>, file_mode: bool, base: Seq<char>) -> Result<
    Seq<Occ<Seq<Seq<char>>>>,
    InputFault,
> {
    if values.len() == 0 {
        Err(InputFault::Empty)
    } else if values.len() == 1 {
        match values[0] {
            Json::Object(fields) => Ok(
                seq![
                    Occ {
                        at: seq![object_name(file_mode, base)],
                        fields,
                        role: Role::Object,
                        indexes: Seq::empty(),
                    },
                ],
            ),
            Json::Array(items) => if all_objects(items) {
                Ok(members_of_collection(collection_name(file_mode, base), items))
            } else {
                Err(InputFault::ArrayValueNotObject)
            },
            _ => Err(InputFault::NotObjectOrArray),
        }
    } else if all_objects(values) {
        Ok(members_of_collection(collection_name(file_mode, base), values))
    } else {
        Err(InputFault::ValueNotObject)
    }
}

pub fn normalize_json_values(values: Vec<JsonValue>, file_mode: bool, base: &str) -> (r: Result<
    Vec<Entry>,
    InputError,
>)
    ensures
        entries_result(r) == json_entries(json::items_model(values@), file_mode, base@),
        r matches Ok(entries) ==> all_tidy(json::items_model(values@)) ==> tidy_entries(
            walk::entries_model(entries@),
        ),
{
    let ghost models = json::items_model(values@);
    proof {
        if all_tidy(models) {
            if all_objects(models) {
                lemma_tidy_members(collection_name(file_mode, base@), models);
            }
            if models.len() == 1 && models[0] is Array && all_objects(models[0]->Array_0) {
                assert(json::tidy(models[0]));
                json::lemma_tidy_items(models[0]->Array_0);
                lemma_tidy_members(collection_name(file_mode, base@), models[0]->Array_0);
            }
            if models.len() == 1 && models[0] is Object {
                assert(json::tidy(models[0]));
            }
        }
    }
    if values.len() == 0 {
        return Err(InputError::Empty);
    }
    let root = root_collection_name(file_mode, base);
    if values.len() > 1 {
        return match collection_entries(&root, values) {
            Some(entries) => Ok(entries),
            None => Err(InputError::ValueNotObject),
        };
    }
    let mut values = values;
    let value = values.pop();
    match value {
        Some(JsonValue::Object(fields)) => {
            let mut path: Vec<String> = Vec::new();
            path.push(
                if file_mode {
                    base.to_string()
                } else {
                    "root".to_string()
                },
            );
            let mut entries: Vec<Entry> = Vec::new();
            entries.push(Entry { path, index: None, collection: false, value: fields });
            proof {
                json::lemma_model_object(fields);
                assert(models[0] == json::model(JsonValue::Object(fields)));
                assert(text::models(path@) =~= seq![object_name(file_mode, base@)]);
                assert(walk::entries_model(entries@) =~= json_entries(models, file_mode, base@)->Ok_0);
            }
            Ok(entries)
        },
        Some(JsonValue::Array(items)) => {
            proof {
                json::lemma_model_array(items);
                assert(models[0] == json::model(JsonValue::Array(items)));
            }
            match collection_entries(&root, items) {
                Some(entries) => Ok(entries),
                None => Err(InputError::ArrayValueNotObject),
            }
        },
        _ => {
            assert(models[0] == json::model(value->0));
            Err(InputError::NotObjectOrArray)
        },
    }
}

/// The top-level objects of an input. Lines of JSON are read as such if `jsonl_mode` says so,
/// or if the input is no sequence of JSON values.
pub open spec fn input_entries(
    input: Seq<char>,
    jsonl_mode: bool,
    file_mode: bool,
    base: Seq<char>,
) -> Result<Seq<Occ<Seq<Seq<char>>>>, InputFault> {
    if blank(input) {
        Err(InputFault::Empty)
    } else if jsonl_mode {
        match lines_values(lines(input)) {
            Err(fault) => Err(fault),
            Ok(values) => jsonl_entries(values, file_mode, base),
        }
    } else {
        match json_input(input) {
            Ok(values) => json_entries(values, file_mode, base),
            Err(fault) => fallback_entries(fault, lines_values(lines(input)), file_mode, base),
        }
    }
}

/// The top-level objects of an input that is no sequence of JSON values: those of its lines.
pub open spec fn fallback_entries(
    json_fault: InputFault,
    in_lines: Result<Seq<Json>, InputFault>,
    file_mode: bool,
    base: Seq<char>,
) -> Result<Seq<Occ<Seq<Seq<char>>>>, InputFault> {
    match in_lines {
        Ok(values) => jsonl_entries(values, file_mode, base),
        Err(other) => Err(
            InputFault::InvalidJsonAndJsonl(fault_cause(json_fault)->0, fault_message(other)),
        ),
    }
}

/// The top-level objects of an input on which `json_error` came, from its lines.
pub fn normalize_fallback(
    json_error: InputError,
    in_lines: Result<Vec<JsonValue>, InputError>,
    file_mode: bool,
    base: &str,
) -> (r: Result<Vec<Entry>, InputError>)
    requires
        json_error is InvalidJson,
    ensures
        entries_result(r) == fallback_entries(
            error_model(json_error),
            values_result(in_lines),
            file_mode,
            base@,
        ),
        r matches Ok(entries) ==> all_tidy(values_result(in_lines)->Ok_0) ==> tidy_entries(
            walk::entries_model(entries@),
        ),
{
    match in_lines {
        Ok(values) => normalize_jsonl_values(values, file_mode, base),
        Err(jsonl_error) => {
            let cause = match json_error.cause() {
                Some(cause) => cause,
                None => String::new(),
            };
            Err(InputError::InvalidJsonAndJsonl(cause, jsonl_error.message()))
        },
    }
}

pub fn normalize_input(input: &str, jsonl_mode: bool, file_mode: bool, base: &str) -> (r: Result<
    Vec<Entry>,
    InputError,
>)
    ensures
        entries_result(r) == input_entries(input@, jsonl_mode, file_mode, base@),
        r matches Ok(entries) ==> tidy_entries(walk::entries_model(entries@)),
        r is Ok && jsonl_mode ==> lines_end_freely(lines(input@)),
{
    if is_blank(input) {
        return Err(InputError::Empty);
    }
    if jsonl_mode {
        return match parse_jsonl_stream(input) {
            Ok(values) => normalize_jsonl_values(values, file_mode, base),
            Err(e) => Err(e),
        };
    }
    match parse_json_stream(input) {
        Ok(values) => normalize_json_values(values, file_mode, base),
        Err(json_error) => normalize_fallback(
            json_error,
            parse_jsonl_stream(input),
            file_mode,
            base,
        ),
    }
}

} // verus!
