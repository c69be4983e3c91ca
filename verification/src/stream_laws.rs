//! What holds of streams: how each line is taken.

use crate::input;
use crate::input::InputFault;
use crate::input_laws;
use crate::json;
use crate::json::Json;
use crate::jsonl;
use crate::jsonl::LineReading;
use crate::text;
use crate::text_laws;
use crate::walk::Role;
use vstd::prelude::*;

verus! {

/// The values ahead of the first error, at `n` or at the end.
pub open spec fn values_up_to(found: Seq<Result<Json, (bool, Seq<char>)>>, n: int) -> Seq<Json> {
    Seq::new(n as nat, |i: int| found[i]->Ok_0)
}

proof fn lemma_values_up_to(found: Seq<Result<Json, (bool, Seq<char>)>>, n: int)
    requires
        0 <= n <= found.len(),
        input_laws::without_errors(found.take(n)),
        n < found.len() ==> found[n] is Err,
    ensures
        json::good_values(found) == values_up_to(found, n),
        n < found.len() ==> json::first_fault(found) == Some(found[n]->Err_0),
        n == found.len() ==> json::first_fault(found) is None,
    decreases found.len(),
{
    if found.len() == 0 {
        assert(json::good_values(found) =~= values_up_to(found, n));
    } else if n == 0 {
        assert(json::good_values(found) =~= values_up_to(found, n));
    } else {
        let rest = found.drop_first();
        assert(found.take(n)[0] == found[0]);
        assert(found[0] is Ok);
        assert forall|i: int| 0 <= i < rest.take(n - 1).len() implies (#[trigger] rest.take(
            n - 1,
        )[i]) is Ok by {
            assert(found.take(n)[i + 1] is Ok);
        }
        lemma_values_up_to(rest, n - 1);
        assert(json::good_values(found) =~= values_up_to(found, n));
    }
}

/// A line of a stream, `padding` NUL characters and a record. A blank line adds nothing. A line of
/// padding alone is refused. The values of a record are taken up to its end or its first
/// error; the first that is no object has the line refused, and so has an error, unless the
/// record breaks off there and no line end follows: then the stream ends with what came ahead.
pub proof fn law_lines_of_a_stream(padding: nat, record: Seq<char>, n: nat, k: int, m: int)
    requires
        record.len() > 0 ==> record[0] != '\0',
        0 <= k <= json::json_values(record).len(),
        input_laws::without_errors(json::json_values(record).take(k)),
        k < json::json_values(record).len() ==> json::json_values(record)[k] is Err,
        0 <= m <= k,
        forall|i: int|
            0 <= i < m ==> (#[trigger] values_up_to(json::json_values(record), k)[i]) is Object,
        m < k ==> !(values_up_to(json::json_values(record), k)[m] is Object),
    ensures
        ({
            let line = Seq::new(padding, |i: int| '\0') + record;
            let read = jsonl::reading(line, n);
            let found = json::json_values(record);
            let values = values_up_to(found, k);
            let empty = text::trimmed(record).len() == 0;
            let ended = line.len() > 0 && line.last() == '\n';
            &&& empty && padding == 0 ==> read == LineReading::Values(Seq::empty())
            &&& empty && padding > 0 ==> read == LineReading::Refused(
                Seq::empty(),
                InputFault::NulPadding(n),
            )
            &&& !empty && m < k ==> read == LineReading::Refused(
                values.take(m),
                InputFault::JsonlValueNotObject,
            )
            &&& !empty && m == k && k == found.len() ==> read == LineReading::Values(values)
            &&& !empty && m == k && k < found.len() && found[k]->Err_0.0 && !ended ==> read
                == LineReading::CutOff(values)
            &&& !empty && m == k && k < found.len() && !(found[k]->Err_0.0 && !ended) ==> read
                == LineReading::Refused(values, InputFault::InvalidJsonl(n, found[k]->Err_0.1))
        }),
{
    let run = Seq::new(padding, |i: int| '\0');
    let line = run + record;
    let found = json::json_values(record);
    let values = values_up_to(found, k);
    text_laws::law_ends_are_taken_off(padding, record, '\0');
    assert(input::record_of(line) == record);
    lemma_values_up_to(found, k);
    if padding == 0 {
        assert(line =~= record);
    } else {
        assert(line[0] == '\0');
        assert(!text::is_white('\0'));
        assert(text::trim_start(line) == line);
        input_laws::lemma_not_blank(line);
    }
    lemma_leading_objects(values, m);
    if m == k {
        assert(values.take(m) =~= values);
    }
}

proof fn lemma_leading_objects(values: Seq<Json>, m: int)
    requires
        0 <= m <= values.len(),
        forall|i: int| 0 <= i < m ==> (#[trigger] values[i]) is Object,
        m < values.len() ==> !(values[m] is Object),
    ensures
        jsonl::leading_objects(values) == values.take(m),
        input::all_objects(values) <==> m == values.len(),
    decreases values.len(),
{
    if values.len() > 0 {
        let d = values.drop_last();
        let n = values.len() - 1;
        assert forall|i: int| 0 <= i < n implies d[i] == #[trigger] values[i] by {}
        if m == values.len() {
            assert(values.take(m) =~= values);
            assert forall|i: int| 0 <= i < n implies (#[trigger] d[i]) is Object by {
                assert(values[i] is Object);
            }
            lemma_leading_objects(d, n);
            assert(values[n] is Object);
        } else {
            assert forall|i: int| 0 <= i < m implies (#[trigger] d[i]) is Object by {
                assert(values[i] is Object);
            }
            lemma_leading_objects(d, m);
            assert(d.take(m) =~= values.take(m));
        }
    } else {
        assert(values.take(m) =~= Seq::empty());
    }
}

/// The values of a stream are members of one collection, numbered in their order.
pub proof fn law_streamed_values_are_numbered(
    root: Seq<char>,
    values: Seq<Json>,
    start: nat,
    i: int,
)
    requires
        0 <= i < values.len(),
        values[i] is Object,
    ensures
        jsonl::streamed_members(root, values, start).len() == values.len(),
        ({
            let o = jsonl::streamed_members(root, values, start)[i];
            &&& o.at == root
            &&& Json::Object(o.fields) == values[i]
            &&& o.role == Role::RootCollection
            &&& o.indexes == seq![(start + i) as nat]
        }),
{
}

} // verus!
