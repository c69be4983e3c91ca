//! Streaming lines of JSON, one line at a time.

use crate::input;
use crate::input::{root_collection_name, InputError, InputFault};
use crate::json;
use crate::json::{read_json, Json, JsonValue};
use crate::names;
use crate::names::Names;
use crate::path;
use crate::path::reference_path;
use crate::recorder;
use crate::recorder::{RecorderModel, StreamError};
use crate::stream::{record_streamed_object_occurrence_to_acc, StreamAcc};
use crate::tables;
use crate::tables::{Log, Tables};
use crate::text;
use crate::text::{ends_with_char, is_blank, trim_start_char};
use crate::walk;
use crate::walk::{Occ, Role};
use vstd::prelude::*;

verus! {

/// The values of a stream as the members of a collection at `root`, numbered from `start`.
pub open spec fn streamed_members(root: Seq<char>, values: Seq<Json>, start: nat) -> Seq<
    Occ<Seq<char>>,
> {
    Seq::new(
        values.len(),
        |i: int|
            Occ {
                at: root,
                fields: values[i]->Object_0,
                role: Role::RootCollection,
                indexes: seq![start + i as nat],
            },
    )
}

/// What recording values adds.
pub open spec fn values_log(root: Seq<char>, values: Seq<Json>, start: nat) -> Log<
    Seq<char>,
    Seq<char>,
> {
    recorder::log_of(
        walk::walk_all(streamed_members(root, values, start), recorder::by_paths()),
    )
}

/// The names that recording values needs.
pub open spec fn values_names(root: Seq<char>, values: Seq<Json>, start: nat) -> Names {
    names::names_of(walk::walk_all(streamed_members(root, values, start), recorder::by_paths()))
}

/// The values ahead of the first that is no object.
pub open spec fn leading_objects(values: Seq<Json>) -> Seq<Json>
    decreases values.len(),
{
    if values.len() == 0 {
        Seq::empty()
    } else if leading_objects(values.drop_last()).len() == values.len() - 1
        && values.last() is Object {
        values
    } else {
        leading_objects(values.drop_last())
    }
}

/// An error at the end of a line that was cut off.
pub open spec fn cut_off(line: Seq<char>, eof: bool) -> bool {
    eof && !(line.len() > 0 && line.last() == '\n')
}

pub fn is_incomplete_trailing_jsonl_record(line: &str, eof: bool) -> (r: bool)
    ensures
        r == cut_off(line@, eof),
{
    !ends_with_char(line, '\n') && eof
}

/// What reading a line comes to.
pub ghost enum LineReading {
    /// The line holds values, perhaps none, and no error.
    Values(Seq<Json>),
    /// The line holds values and then breaks off: the stream ends here.
    CutOff(Seq<Json>),
    /// The line holds objects and then something that is refused.
    Refused(Seq<Json>, InputFault),
}

/// How the `n`th line reads if `found` and then `fault` was read from it.
pub open spec fn record_reading(
    line: Seq<char>,
    n: nat,
    found: Seq<Json>,
    fault: Option<(bool, Seq<char>)>,
) -> LineReading {
    if !input::all_objects(found) {
        LineReading::Refused(leading_objects(found), InputFault::JsonlValueNotObject)
    } else {
        match fault {
            None => LineReading::Values(found),
            Some(f) => if cut_off(line, f.0) {
                LineReading::CutOff(found)
            } else {
                LineReading::Refused(found, InputFault::InvalidJsonl(n, f.1))
            },
        }
    }
}

/// How the `n`th line reads. `line` includes its line end, if it has one.
pub open spec fn reading(line: Seq<char>, n: nat) -> LineReading {
    let record = input::record_of(line);
    if input::blank(record) {
        if input::blank(line) {
            LineReading::Values(Seq::empty())
        } else {
            LineReading::Refused(Seq::empty(), InputFault::NulPadding(n))
        }
    } else {
        record_reading(
            line,
            n,
            json::good_values(json::json_values(record)),
            json::first_fault(json::json_values(record)),
        )
    }
}

pub open spec fn reading_values(r: LineReading) -> Seq<Json> {
    match r {
        LineReading::Values(values) => values,
        LineReading::CutOff(values) => values,
        LineReading::Refused(values, _) => values,
    }
}

/// Why a stream was refused.
#[derive(Debug)]
pub enum JsonlError {
    Input(InputError),
    Stream(StreamError),
    TooManyLines,
}

/// What to do after a line.
#[derive(Clone, Copy, PartialEq, Eq, Structural, Debug)]
pub enum NextLine {
    Read,
    Stop,
}

/// A stream of JSON lines whose objects are recorded as they come.
pub struct JsonlStream {
    acc: StreamAcc,
    root: String,
    lines: u64,
    values: usize,
}

impl JsonlStream {
    pub closed spec fn ready(self) -> bool {
        self.acc.ready()
    }

    /// What has been recorded.
    pub closed spec fn log(self) -> Log<Seq<char>, Seq<char>> {
        self.acc.log()
    }

    /// The names that have numbers.
    pub closed spec fn names(self) -> Names {
        self.acc.names()
    }

    /// The path of the collection.
    pub closed spec fn root(self) -> Seq<char> {
        self.root@
    }

    /// How many lines have been read.
    pub closed spec fn line_count(self) -> nat {
        self.lines as nat
    }

    /// How many values have been recorded.
    pub closed spec fn value_count(self) -> nat {
        self.values as nat
    }

    pub fn new(outdir: &str, file_mode: bool, base: &str) -> (r: Self)
        ensures
            r.ready(),
            r.log() == tables::empty_log::<Seq<char>, Seq<char>>(),
            r.names() == names::no_names(),
            r.root() == path::reference(outdir@, seq![input::collection_name(file_mode, base@)]),
            r.line_count() == 0,
            r.value_count() == 0,
    {
        let mut segments: Vec<String> = Vec::new();
        segments.push(root_collection_name(file_mode, base));
        assert(text::models(segments@) =~= seq![input::collection_name(file_mode, base@)]);
        JsonlStream {
            acc: StreamAcc::new(),
            root: reference_path(outdir, &segments),
            lines: 0,
            values: 0,
        }
    }

    /// Records the objects at the start of `values`; says whether those were all.
    fn record_values(&mut self, values: &Vec<JsonValue>) -> (r: Result<bool, StreamError>)
        requires
            old(self).ready(),
        ensures
            ({
                let found = leading_objects(json::items_model(values@));
                let log = tables::joined_logs(
                    old(self).log(),
                    values_log(old(self).root(), found, old(self).value_count()),
                );
                let more = names::joined_names(
                    old(self).names(),
                    values_names(old(self).root(), found, old(self).value_count()),
                );
                &&& final(self).root() == old(self).root()
                &&& final(self).line_count() == old(self).line_count()
                &&& match r {
                    Ok(all) => final(self).ready() && final(self).log() == log
                        && tables::facts_fit(log) && final(self).names() == more
                        && names::fits(more) && all == input::all_objects(json::items_model(values@))
                        && final(self).value_count() == old(self).value_count() + found.len(),
                    Err(StreamError::TooManyFacts) => !tables::facts_fit(log) || old(
                        self,
                    ).value_count() + found.len() > usize::MAX,
                    Err(StreamError::TooManyNames) => !names::fits(more),
                }
            }),
    {
        let ghost start = *self;
        let ghost models = json::items_model(values@);
        let ghost found = leading_objects(models);
        let ghost members = streamed_members(start.root(), found, start.value_count());
        let ghost need = names::names_of(walk::walk_all(members, recorder::by_paths()));
        let mut i: usize = 0;
        proof {
            assert(models.take(0) =~= Seq::empty());
            assert(members.take(0) =~= Seq::empty());
            recorder::lemma_join_empty(start.log());
            names::lemma_joined_none(start.names());
            names::law_names_are_no_more_than_facts(
                walk::walk_all(members, recorder::by_paths()),
            );
            self.acc.bounded();
        }
        while i < values.len()
            invariant
                models == json::items_model(values@),
                found == leading_objects(models),
                members == streamed_members(start.root(), found, start.value_count()),
                start == *old(self),
                i <= values@.len(),
                i <= found.len(),
                leading_objects(models.take(i as int)) == models.take(i as int),
                self.ready(),
                start.ready(),
                names::finite(need),
                need == names::names_of(walk::walk_all(members, recorder::by_paths())),
                names::finite(start.names()),
                self.names() == names::joined_names(
                    start.names(),
                    names::names_of(
                        walk::walk_all(members.take(i as int), recorder::by_paths()),
                    ),
                ),
                self.root() == start.root(),
                self.line_count() == start.line_count(),
                self.value_count() == start.value_count() + i,
                self.log() == tables::joined_logs(
                    start.log(),
                    recorder::log_of(walk::walk_all(members.take(i as int), recorder::by_paths())),
                ),
            decreases values@.len() - i,
        {
            proof {
                assert(models.take(i + 1).drop_last() =~= models.take(i as int));
                assert(models.take(i + 1).last() == json::model(values@[i as int]));
                lemma_leading(models, i + 1);
                lemma_leading(models, i as int);
                assert(models.take(models.len() as int) =~= models);
            }
            match &values[i] {
                JsonValue::Object(fields) => {
                    let ghost o = members[i as int];
                    proof {
                        json::lemma_model_object(*fields);
                        assert(found.len() >= i + 1);
                        assert(found[i as int] == models[i as int]) by {
                            lemma_leading_prefix(models);
                        }
                        assert(members.take(i + 1).drop_last() =~= members.take(i as int));
                        assert(members.take(i + 1).last() == o);
                        let done = walk::walk_all(members.take(i as int), recorder::by_paths());
                        let more = walk::walk_object(
                            o.at,
                            recorder::by_paths(),
                            o.fields,
                            o.role,
                            o.indexes,
                        );
                        recorder::lemma_log_of_concat(done, more);
                        recorder::lemma_join_assoc(
                            start.log(),
                            recorder::log_of(done),
                            recorder::log_of(more),
                        );
                        lemma_members_start(members, i + 1);
                        recorder::lemma_walk_part(
                            start.log(),
                            done + more,
                            walk::walk_all(members, recorder::by_paths()),
                        );
                        names::lemma_names_concat(done, more);
                        names::lemma_joined_assoc(
                            start.names(),
                            names::names_of(done),
                            names::names_of(more),
                        );
                        let whole = names::joined_names(start.names(), need);
                        if names::fits(whole) {
                            names::lemma_fits_within(
                                names::joined_names(
                                    start.names(),
                                    names::names_of(done + more),
                                ),
                                whole,
                            );
                        }
                    }
                    if self.values == usize::MAX {
                        return Err(StreamError::TooManyFacts);
                    }
                    let mut indexes: Vec<usize> = Vec::new();
                    indexes.push(self.values);
                    assert(text::models(indexes@) =~= seq![(start.value_count() + i) as nat]);
                    match record_streamed_object_occurrence_to_acc(
                        &mut self.acc,
                        self.root.as_str(),
                        fields,
                        Role::RootCollection,
                        &indexes,
                    ) {
                        Ok(_) => {},
                        Err(e) => {
                            return Err(e);
                        },
                    }
                    self.values = self.values + 1;
                },
                _ => {
                    proof {
                        assert(!(models[i as int] is Object));
                        assert(found == leading_objects(models.take(i + 1)));
                        assert(members.take(i as int) =~= members);
                        self.acc.bounded();
                    }
                    return Ok(false);
                },
            }
            i = i + 1;
        }
        proof {
            assert(models.take(models.len() as int) =~= models);
            assert(members.take(members.len() as int) =~= members);
            lemma_leading_all(models);
            self.acc.bounded();
        }
        Ok(true)
    }

    /// Takes in what was read from the `number`th line: `values`, and then `fault`.
    pub fn take_record(
        &mut self,
        line: &str,
        number: u64,
        values: &Vec<JsonValue>,
        fault: Option<(bool, String)>,
    ) -> (r: Result<NextLine, JsonlError>)
        requires
            old(self).ready(),
        ensures
            ({
                let read = record_reading(
                    line@,
                    number as nat,
                    json::items_model(values@),
                    json::fault_model(fault),
                );
                let found = reading_values(read);
                let log = tables::joined_logs(
                    old(self).log(),
                    values_log(old(self).root(), found, old(self).value_count()),
                );
                let more = names::joined_names(
                    old(self).names(),
                    values_names(old(self).root(), found, old(self).value_count()),
                );
                match r {
                    Ok(next) => final(self).ready() && final(self).log() == log
                        && tables::facts_fit(log) && final(self).names() == more
                        && names::fits(more) && final(self).root() == old(self).root() && final(self).line_count()
                        == old(self).line_count() && final(self).value_count()
                        == old(self).value_count() + found.len() && match next {
                        NextLine::Read => read is Values,
                        NextLine::Stop => read is CutOff,
                    },
                    Err(JsonlError::Input(e)) => read is Refused && read->Refused_1
                        == input::error_model(e),
                    Err(JsonlError::Stream(StreamError::TooManyFacts)) => !tables::facts_fit(log)
                        || old(self).value_count() + found.len() > usize::MAX,
                    Err(JsonlError::Stream(StreamError::TooManyNames)) => !names::fits(more),
                    Err(JsonlError::TooManyLines) => false,
                }
            }),
    {
        proof {
            lemma_leading_all(json::items_model(values@));
        }
        match self.record_values(values) {
            Err(e) => {
                return Err(JsonlError::Stream(e));
            },
            Ok(all) => {
                if !all {
                    return Err(JsonlError::Input(InputError::JsonlValueNotObject));
                }
            },
        }
        match fault {
            None => Ok(NextLine::Read),
            Some(f) => if is_incomplete_trailing_jsonl_record(line, f.0) {
                Ok(NextLine::Stop)
            } else {
                Err(JsonlError::Input(InputError::InvalidJsonl(number, f.1)))
            },
        }
    }

    /// Reads one line, which includes its line end if it has one.
    pub fn feed(&mut self, line: &str) -> (r: Result<NextLine, JsonlError>)
        requires
            old(self).ready(),
        ensures
            ({
                let read = reading(line@, old(self).line_count() + 1);
                let found = reading_values(read);
                let log = tables::joined_logs(
                    old(self).log(),
                    values_log(old(self).root(), found, old(self).value_count()),
                );
                let more = names::joined_names(
                    old(self).names(),
                    values_names(old(self).root(), found, old(self).value_count()),
                );
                match r {
                    Ok(next) => final(self).ready() && final(self).log() == log
                        && tables::facts_fit(log) && final(self).names() == more
                        && names::fits(more) && final(self).root() == old(self).root() && final(self).line_count()
                        == old(self).line_count() + 1 && final(self).value_count()
                        == old(self).value_count() + found.len() && input::all_tidy(found)
                        && match next {
                        NextLine::Read => read is Values,
                        NextLine::Stop => read is CutOff,
                    },
                    Err(JsonlError::Input(e)) => read is Refused && read->Refused_1
                        == input::error_model(e),
                    Err(JsonlError::Stream(StreamError::TooManyFacts)) => !tables::facts_fit(log)
                        || old(self).value_count() + found.len() > usize::MAX,
                    Err(JsonlError::Stream(StreamError::TooManyNames)) => !names::fits(more),
                    Err(JsonlError::TooManyLines) => old(self).line_count() == u64::MAX,
                }
            }),
    {
        if self.lines == u64::MAX {
            return Err(JsonlError::TooManyLines);
        }
        let ghost start = *self;
        self.lines = self.lines + 1;
        let number = self.lines;
        let record = trim_start_char(line, '\0');
        if is_blank(record) {
            if !is_blank(line) {
                return Err(JsonlError::Input(InputError::NulPadding(number)));
            }
            proof {
                let none = Seq::<Json>::empty();
                assert(streamed_members(start.root(), none, start.value_count()) =~= Seq::empty());
                recorder::lemma_join_empty(start.log());
                names::lemma_joined_none(start.names());
                start.acc.bounded();
            }
            return Ok(NextLine::Read);
        }
        let (values, fault) = read_json(record);
        self.take_record(line, number, &values, fault)
    }

    /// The tables of what has been recorded; refused if there was no value.
    pub fn finish(self) -> (r: Result<Tables<String, String>, InputError>)
        requires
            self.ready(),
        ensures
            match r {
                Ok(t) => self.value_count() > 0 && t.wf() && t.holds(self.log())
                    && tables::facts_fit(self.log()),
                Err(e) => self.value_count() == 0 && input::error_model(e) == InputFault::Empty,
            },
    {
        if self.values == 0 {
            return Err(InputError::Empty);
        }
        proof {
            self.acc.bounded();
        }
        Ok(self.acc.flush())
    }
}

proof fn lemma_leading(values: Seq<Json>, n: int)
    requires
        0 <= n <= values.len(),
    ensures
        leading_objects(values.take(n)).len() <= n,
        leading_objects(values.take(n)).len() <= leading_objects(values).len(),
        leading_objects(values.take(n)).len() < n ==> leading_objects(values) == leading_objects(
            values.take(n),
        ),
    decreases values.len() - n,
{
    if n == values.len() {
        assert(values.take(n) =~= values);
        lemma_leading_prefix(values);
    } else {
        lemma_leading(values, n + 1);
        assert(values.take(n + 1).drop_last() =~= values.take(n));
        lemma_leading_prefix(values.take(n));
    }
}

proof fn lemma_leading_prefix(values: Seq<Json>)
    ensures
        leading_objects(values).len() <= values.len(),
        leading_objects(values) == values.take(leading_objects(values).len() as int),
    decreases values.len(),
{
    let n = leading_objects(values).len() as int;
    if values.len() == 0 {
        assert(values.take(0) =~= Seq::empty());
    } else {
        lemma_leading_prefix(values.drop_last());
        if leading_objects(values.drop_last()).len() == values.len() - 1
            && values.last() is Object {
            assert(values.take(values.len() as int) =~= values);
        } else {
            assert(values.drop_last().take(n) =~= values.take(n));
        }
    }
}

/// All values are objects exactly if none ends the objects at the start.
proof fn lemma_leading_all(values: Seq<Json>)
    ensures
        input::all_objects(values) <==> leading_objects(values).len() == values.len(),
        input::all_objects(values) ==> leading_objects(values) == values,
    decreases values.len(),
{
    lemma_leading_prefix(values);
    if values.len() > 0 {
        let d = values.drop_last();
        lemma_leading_all(d);
        lemma_leading_prefix(d);
        if input::all_objects(values) {
            assert(values[values.len() - 1] is Object);
            assert forall|i: int| 0 <= i < d.len() implies (#[trigger] d[i]) is Object by {
                assert(values[i] is Object);
            }
        }
        if leading_objects(values).len() == values.len() {
            assert forall|i: int| 0 <= i < values.len() implies (#[trigger] values[i]) is Object by {
                if i < d.len() {
                    assert(d[i] is Object);
                }
            }
        }
    }
}

/// The walk of the members up to some place is how the walk of all starts.
proof fn lemma_members_start(members: Seq<Occ<Seq<char>>>, n: int)
    requires
        0 <= n <= members.len(),
    ensures
        walk::walk_all(members.take(n), recorder::by_paths()).is_prefix_of(
            walk::walk_all(members, recorder::by_paths()),
        ),
    decreases members.len() - n,
{
    if n == members.len() {
        assert(members.take(n) =~= members);
    } else {
        lemma_members_start(members, n + 1);
        assert(members.take(n + 1).drop_last() =~= members.take(n));
    }
}

} // verus!
