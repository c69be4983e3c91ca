//! Lines that are fed to a stream read as the lines of a whole text do.

use crate::input;
use crate::input::LineSplit;
use crate::json;
use crate::json::Json;
use crate::jsonl;
use crate::jsonl::LineReading;
use crate::names;
use crate::names::Names;
use crate::recorder;
use crate::tables;
use crate::tables::Log;
use crate::text;
use crate::walk;
use crate::walk::Occ;
use vstd::prelude::*;

verus! {

/// A text read up to some place: the finished lines with their ends, and the line being read.
pub open spec fn piece_split(t: Seq<char>) -> LineSplit
    decreases t.len(),
{
    if t.len() == 0 {
        LineSplit { done: Seq::empty(), current: Seq::empty() }
    } else {
        let s = piece_split(t.drop_last());
        if t.last() == '\n' {
            LineSplit { done: s.done.push(s.current.push('\n')), current: Seq::empty() }
        } else {
            LineSplit { current: s.current.push(t.last()), ..s }
        }
    }
}

/// The lines of a text, each with its line end; the last one may have none.
pub open spec fn pieces(t: Seq<char>) -> Seq<Seq<char>> {
    let s = piece_split(t);
    if s.current.len() > 0 {
        s.done.push(s.current)
    } else {
        s.done
    }
}

/// The values of lines that are fed one after the other, unless one is refused or cut off.
pub open spec fn fed_values(all: Seq<Seq<char>>) -> Option<Seq<Json>>
    decreases all.len(),
{
    if all.len() == 0 {
        Some(Seq::empty())
    } else {
        match (fed_values(all.drop_last()), jsonl::reading(all.last(), all.len())) {
            (Some(values), LineReading::Values(more)) => Some(values + more),
            _ => None,
        }
    }
}

/// What feeding lines one after the other records.
pub open spec fn fed_log(root: Seq<char>, all: Seq<Seq<char>>) -> Log<Seq<char>, Seq<char>>
    decreases all.len(),
{
    if all.len() == 0 {
        tables::empty_log()
    } else {
        tables::joined_logs(
            fed_log(root, all.drop_last()),
            jsonl::values_log(
                root,
                jsonl::reading_values(jsonl::reading(all.last(), all.len())),
                fed_values(all.drop_last())->0.len(),
            ),
        )
    }
}

/// The names that feeding lines one after the other needs.
pub open spec fn fed_names(root: Seq<char>, all: Seq<Seq<char>>) -> Names
    decreases all.len(),
{
    if all.len() == 0 {
        names::no_names()
    } else {
        names::joined_names(
            fed_names(root, all.drop_last()),
            jsonl::values_names(
                root,
                jsonl::reading_values(jsonl::reading(all.last(), all.len())),
                fed_values(all.drop_last())->0.len(),
            ),
        )
    }
}

proof fn lemma_walk_all_concat(a: Seq<Occ<Seq<char>>>, b: Seq<Occ<Seq<char>>>)
    ensures
        walk::walk_all(a + b, recorder::by_paths()) == walk::walk_all(a, recorder::by_paths())
            + walk::walk_all(b, recorder::by_paths()),
    decreases b.len(),
{
    if b.len() == 0 {
        assert(a + b =~= a);
        assert(walk::walk_all(b, recorder::by_paths()) =~= Seq::empty());
        assert(walk::walk_all(a, recorder::by_paths()) + walk::walk_all(b, recorder::by_paths())
            =~= walk::walk_all(a, recorder::by_paths()));
    } else {
        lemma_walk_all_concat(a, b.drop_last());
        assert((a + b).drop_last() =~= a + b.drop_last());
        assert((a + b).last() == b.last());
        assert(walk::walk_all(a + b, recorder::by_paths()) =~= walk::walk_all(
            a,
            recorder::by_paths(),
        ) + walk::walk_all(b, recorder::by_paths()));
    }
}

/// Recording values in two parts records them all.
proof fn lemma_values_log_concat(root: Seq<char>, a: Seq<Json>, b: Seq<Json>)
    ensures
        jsonl::values_log(root, a + b, 0) == tables::joined_logs(
            jsonl::values_log(root, a, 0),
            jsonl::values_log(root, b, a.len()),
        ),
        jsonl::values_names(root, a + b, 0) == names::joined_names(
            jsonl::values_names(root, a, 0),
            jsonl::values_names(root, b, a.len()),
        ),
{
    let x = jsonl::streamed_members(root, a, 0);
    let y = jsonl::streamed_members(root, b, a.len());
    assert(jsonl::streamed_members(root, a + b, 0) =~= x + y);
    lemma_walk_all_concat(x, y);
    recorder::lemma_log_of_concat(
        walk::walk_all(x, recorder::by_paths()),
        walk::walk_all(y, recorder::by_paths()),
    );
    names::lemma_names_concat(
        walk::walk_all(x, recorder::by_paths()),
        walk::walk_all(y, recorder::by_paths()),
    );
}

/// Feeding lines one after the other records the values of all of them, and needs their names.
pub proof fn law_feeding_records_all_values(root: Seq<char>, all: Seq<Seq<char>>)
    requires
        fed_values(all) is Some,
    ensures
        fed_log(root, all) == jsonl::values_log(root, fed_values(all)->0, 0),
        fed_names(root, all) == jsonl::values_names(root, fed_values(all)->0, 0),
    decreases all.len(),
{
    if all.len() == 0 {
        let none = Seq::<Json>::empty();
        assert(jsonl::streamed_members(root, none, 0) =~= Seq::empty());
        assert(walk::walk_all(jsonl::streamed_members(root, none, 0), recorder::by_paths())
            =~= Seq::empty());
    } else {
        law_feeding_records_all_values(root, all.drop_last());
        let before = fed_values(all.drop_last())->0;
        let more = jsonl::reading_values(jsonl::reading(all.last(), all.len()));
        lemma_values_log_concat(root, before, more);
    }
}

/// Lines up to some place can be fed if all can, and record and need what all start with.
proof fn lemma_fed_prefix(root: Seq<char>, all: Seq<Seq<char>>, n: int)
    requires
        0 <= n <= all.len(),
        fed_values(all) is Some,
    ensures
        fed_values(all.take(n)) is Some,
        fed_values(all.take(n))->0.len() <= fed_values(all)->0.len(),
        tables::log_starts(fed_log(root, all.take(n)), fed_log(root, all)),
        names::within(fed_names(root, all.take(n)), fed_names(root, all)),
        n < all.len() ==> jsonl::reading(all[n], (n + 1) as nat) is Values,
    decreases all.len(),
{
    if n == all.len() {
        assert(all.take(n) =~= all);
    } else {
        let d = all.drop_last();
        assert(fed_values(d) is Some);
        assert(all.take(n) =~= d.take(n));
        lemma_fed_prefix(root, d, n);
        if n < d.len() {
            assert(d[n] == all[n]);
        }
    }
}

/// Where the lines ahead of line `n` have been fed, that line holds values, their entries can
/// be counted, and there are numbers for their names: nothing keeps a stream from taking it.
pub open spec fn can_be_fed(root: Seq<char>, all: Seq<Seq<char>>, n: int) -> bool {
    let before = all.take(n);
    let read = jsonl::reading(all[n], (n + 1) as nat);
    let found = jsonl::reading_values(read);
    let count = fed_values(before)->0.len();
    &&& fed_values(before) is Some
    &&& read is Values
    &&& count + found.len() <= usize::MAX
    &&& tables::facts_fit(
        tables::joined_logs(fed_log(root, before), jsonl::values_log(root, found, count)),
    )
    &&& names::fits(
        names::joined_names(fed_names(root, before), jsonl::values_names(root, found, count)),
    )
}

/// A stream takes lines that hold objects only, as long as each single count of what is to be
/// recorded fits, there are numbers for all names, and the values can be numbered.
pub proof fn law_feeding_succeeds(root: Seq<char>, all: Seq<Seq<char>>, n: int)
    requires
        0 <= n < all.len(),
        fed_values(all) is Some,
        fed_values(all)->0.len() <= usize::MAX,
        tables::facts_fit(fed_log(root, all)),
        names::fits(fed_names(root, all)),
    ensures
        can_be_fed(root, all, n),
{
    let next = all.take(n + 1);
    lemma_fed_prefix(root, all, n);
    lemma_fed_prefix(root, all, n + 1);
    assert(next.drop_last() =~= all.take(n));
    assert(next.last() == all[n]);
    tables::lemma_starts_fit(fed_log(root, next), fed_log(root, all));
    law_feeding_records_all_values(root, all);
    let values = fed_values(all)->0;
    names::law_names_are_no_more_than_facts(
        walk::walk_all(jsonl::streamed_members(root, values, 0), recorder::by_paths()),
    );
    names::lemma_fits_within(fed_names(root, next), fed_names(root, all));
}

/// A line that breaks off ahead of its first value adds nothing to what was recorded, and
/// needs no names.
pub proof fn law_cut_off_record_adds_nothing(
    root: Seq<char>,
    log: Log<Seq<char>, Seq<char>>,
    line: Seq<char>,
    n: nat,
    start: nat,
)
    requires
        jsonl::reading(line, n) == LineReading::CutOff(Seq::empty()),
    ensures
        tables::joined_logs(
            log,
            jsonl::values_log(root, jsonl::reading_values(jsonl::reading(line, n)), start),
        ) == log,
        jsonl::values_names(root, jsonl::reading_values(jsonl::reading(line, n)), start)
            == names::no_names(),
{
    let none = Seq::<Json>::empty();
    assert(jsonl::streamed_members(root, none, start) =~= Seq::empty());
    recorder::lemma_join_empty(log);
}

/// NUL characters ahead of a record are padding: the line reads as without them.
pub proof fn law_padding_is_ignored(line: Seq<char>, n: nat)
    requires
        !input::blank(input::record_of(line)),
    ensures
        input::line_values(seq!['\0'] + line, n) == input::line_values(line, n),
        jsonl::reading(seq!['\0'] + line, n) == jsonl::reading(line, n),
{
    let padded = seq!['\0'] + line;
    assert(padded.drop_first() =~= line);
    if line.len() == 0 {
        assert(input::record_of(line) =~= Seq::empty());
        lemma_blank(line);
    }
}

/// A text is blank if it is all white space.
proof fn lemma_blank(t: Seq<char>)
    ensures
        input::blank(t) <==> forall|i: int| 0 <= i < t.len() ==> text::is_white(#[trigger] t[i]),
    decreases t.len(),
{
    if t.len() > 0 {
        let d = t.drop_first();
        if text::is_white(t[0]) {
            lemma_blank(d);
            assert(text::trim_start(t) == text::trim_start(d));
            if input::blank(d) {
                assert forall|i: int| 0 <= i < t.len() implies text::is_white(#[trigger] t[i]) by {
                    if i > 0 {
                        assert(t[i] == d[i - 1]);
                    }
                }
            } else {
                let i = choose|i: int| 0 <= i < d.len() && !text::is_white(#[trigger] d[i]);
                assert(t[i + 1] == d[i]);
            }
        } else {
            assert(text::trim_start(t) == t);
            lemma_not_trimmed_away(t, 0);
        }
    }
}

proof fn lemma_not_trimmed_away(t: Seq<char>, i: int)
    requires
        0 <= i < t.len(),
        !text::is_white(t[i]),
    ensures
        text::trim_end(t).len() > 0,
    decreases t.len(),
{
    if text::is_white(t.last()) {
        assert(i < t.len() - 1);
        assert(t.drop_last()[i] == t[i]);
        lemma_not_trimmed_away(t.drop_last(), i);
    }
}

/// How a line can end.
spec fn is_line_end(end: Seq<char>) -> bool {
    end == Seq::<char>::empty() || end == seq!['\n'] || end == seq!['\r', '\n']
}

proof fn lemma_record_of_ended(line: Seq<char>, end: Seq<char>)
    requires
        is_line_end(end),
    ensures
        input::record_of(line + end) == input::record_of(line) + end,
    decreases line.len(),
{
    if line.len() == 0 {
        assert(line + end =~= end);
        assert(input::record_of(line) + end =~= end);
    } else if line[0] == '\0' {
        assert((line + end).drop_first() =~= line.drop_first() + end);
        lemma_record_of_ended(line.drop_first(), end);
    }
}

proof fn lemma_blank_ended(t: Seq<char>, end: Seq<char>)
    requires
        is_line_end(end),
    ensures
        input::blank(t + end) <==> input::blank(t),
{
    lemma_blank(t);
    lemma_blank(t + end);
    let whole = t + end;
    if input::blank(t) {
        assert forall|i: int| 0 <= i < whole.len() implies text::is_white(#[trigger] whole[i]) by {
            if i < t.len() {
                assert(whole[i] == t[i]);
            } else {
                assert(whole[i] == end[i - t.len()]);
            }
        }
    }
    if input::blank(whole) {
        assert forall|i: int| 0 <= i < t.len() implies text::is_white(#[trigger] t[i]) by {
            assert(whole[i] == t[i]);
        }
    }
}

/// A line reads alike with and without its end.
proof fn lemma_line_reads_alike(line: Seq<char>, end: Seq<char>, n: nat)
    requires
        is_line_end(end),
        input::line_values(line, n) is Ok,
        input::all_objects(input::line_values(line, n)->Ok_0),
        input::blank(input::record_of(line)) || json::ends_freely(input::record_of(line)),
    ensures
        jsonl::reading(line + end, n) == LineReading::Values(input::line_values(line, n)->Ok_0),
{
    let record = input::record_of(line);
    lemma_record_of_ended(line, end);
    lemma_blank_ended(record, end);
    lemma_blank_ended(line, end);
    assert(json::is_space(end));
    assert(input::record_of(line + end) == record + end);
    if !input::blank(record) {
        assert(json::json_values(record + end) == json::json_values(record));
    }
}

/// The lines of a text and its lines with their ends go together.
proof fn lemma_split_alike(t: Seq<char>)
    ensures
        ({
            let a = input::line_split(t);
            let b = piece_split(t);
            &&& a.current == b.current
            &&& a.done.len() == b.done.len()
            &&& forall|i: int| 0 <= i < a.done.len() ==> #[trigger] ended(a.done[i], b.done[i])
        }),
    decreases t.len(),
{
    if t.len() > 0 {
        lemma_split_alike(t.drop_last());
        let a = input::line_split(t.drop_last());
        let b = piece_split(t.drop_last());
        if t.last() == '\n' {
            let line = input::without_return(a.current);
            let end = if line == a.current {
                seq!['\n']
            } else {
                seq!['\r', '\n']
            };
            assert(line + end =~= a.current.push('\n'));
            assert(is_line_end(end));
            assert(ended(line, b.current.push('\n')));
            let x = input::line_split(t).done;
            let y = piece_split(t).done;
            assert forall|i: int| 0 <= i < x.len() implies #[trigger] ended(x[i], y[i]) by {
                if i < a.done.len() {
                    assert(ended(a.done[i], b.done[i]));
                }
            }
        }
    }
}

/// `piece` is `line` with a line end, or just `line`.
pub closed spec fn ended(line: Seq<char>, piece: Seq<char>) -> bool {
    exists|end: Seq<char>| #[trigger] is_line_end(end) && piece == line + end
}

proof fn lemma_lines_alike(all: Seq<Seq<char>>, ended_lines: Seq<Seq<char>>)
    requires
        all.len() == ended_lines.len(),
        forall|i: int| 0 <= i < all.len() ==> #[trigger] ended(all[i], ended_lines[i]),
        input::lines_end_freely(all),
        input::lines_values(all) is Ok,
        input::all_objects(input::lines_values(all)->Ok_0),
    ensures
        fed_values(ended_lines) == Some(input::lines_values(all)->Ok_0),
    decreases all.len(),
{
    if all.len() > 0 {
        let a = all.drop_last();
        let b = ended_lines.drop_last();
        let n = all.len() - 1;
        let before = input::lines_values(a)->Ok_0;
        let more = input::line_values(all.last(), all.len())->Ok_0;
        let whole = input::lines_values(all)->Ok_0;
        assert(whole == before + more);
        assert forall|i: int| 0 <= i < before.len() implies (#[trigger] before[i]) is Object by {
            assert(whole[i] is Object);
        }
        assert forall|i: int| 0 <= i < more.len() implies (#[trigger] more[i]) is Object by {
            assert(whole[before.len() + i] is Object);
        }
        assert forall|i: int| 0 <= i < a.len() implies #[trigger] ended(a[i], b[i]) by {
            assert(ended(all[i], ended_lines[i]));
        }
        assert forall|i: int| 0 <= i < a.len() implies input::blank(
            input::record_of(#[trigger] a[i]),
        ) || json::ends_freely(input::record_of(a[i])) by {
            assert(a[i] == all[i]);
        }
        lemma_lines_alike(a, b);
        assert(ended(all[n], ended_lines[n]));
        let end = choose|end: Seq<char>| #[trigger]
            is_line_end(end) && ended_lines[n] == all[n] + end;
        lemma_line_reads_alike(all[n], end, all.len());
    } else {
        assert(input::lines_values(all)->Ok_0 =~= Seq::empty());
    }
}

/// A text of lines that holds objects only gives a stream, fed line by line, the values that
/// it gives when it is read at once. (Lines that were read without an error end freely.)
pub proof fn law_lines_read_alike(t: Seq<char>)
    requires
        input::lines_values(input::lines(t)) is Ok,
        input::all_objects(input::lines_values(input::lines(t))->Ok_0),
        input::lines_end_freely(input::lines(t)),
    ensures
        fed_values(pieces(t)) == Some(input::lines_values(input::lines(t))->Ok_0),
{
    let a = input::line_split(t);
    let b = piece_split(t);
    let all = input::lines(t);
    let parts = pieces(t);
    lemma_split_alike(t);
    assert forall|i: int| 0 <= i < all.len() implies #[trigger] ended(all[i], parts[i]) by {
        if i < a.done.len() {
            assert(ended(a.done[i], b.done[i]));
        } else {
            let none = Seq::<char>::empty();
            assert(is_line_end(none));
            assert(all[i] + none =~= parts[i]);
        }
    }
    lemma_lines_alike(all, parts);
}

} // verus!
