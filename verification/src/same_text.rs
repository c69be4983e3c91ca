//! A text that is streamed line by line is stored as the same text read at once is.

use crate::catalog;
use crate::catalog::Stored;
use crate::input;
use crate::json;
use crate::json::Json;
use crate::names;
use crate::names::Names;
use crate::path;
use crate::records;
use crate::records::Rec;
use crate::same_counts;
use crate::same_index;
use crate::same_lines;
use crate::same_stored;
use crate::tables;
use crate::tables::{Log, Tables};
use crate::walk;
use crate::walk::Occ;
use vstd::prelude::*;

verus! {

/// The walk of the lines of a text that is read at once, if it can be read.
pub open spec fn text_walk(t: Seq<char>, file_mode: bool, base: Seq<char>) -> Option<
    Seq<Occ<Seq<Seq<char>>>>,
> {
    match input::input_entries(t, true, file_mode, base) {
        Ok(entries) => Some(walk::walk_all(entries, walk::by_keys())),
        Err(_) => None,
    }
}

/// What is stored of a text that is read at once, if it can be read and every object in it can
/// be counted.
pub open spec fn stored_of_text(
    outdir: Seq<char>,
    t: Seq<char>,
    file_mode: bool,
    base: Seq<char>,
) -> Option<Stored> {
    match text_walk(t, file_mode, base) {
        Some(occs) => if same_counts::countable(outdir, occs) {
            Some(catalog::stored_of(outdir, records::built(outdir, occs), occs))
        } else {
            None
        },
        None => None,
    }
}

/// The log of a stream that the lines of a text were fed to.
pub open spec fn text_log(outdir: Seq<char>, t: Seq<char>, file_mode: bool, base: Seq<char>) -> Log<
    Seq<char>,
    Seq<char>,
> {
    same_lines::fed_log(
        path::reference(outdir, seq![input::collection_name(file_mode, base)]),
        same_lines::pieces(t),
    )
}

/// The names that a stream of the lines of a text needs.
pub open spec fn text_names(
    outdir: Seq<char>,
    t: Seq<char>,
    file_mode: bool,
    base: Seq<char>,
) -> Names {
    same_lines::fed_names(
        path::reference(outdir, seq![input::collection_name(file_mode, base)]),
        same_lines::pieces(t),
    )
}

/// What reading a text at once makes sure of besides its values: that fields stand in the order
/// of their names, and that space at the ends of lines changes nothing.
pub open spec fn well_read(t: Seq<char>, file_mode: bool, base: Seq<char>) -> bool {
    &&& input::lines_end_freely(input::lines(t))
    &&& input::input_entries(t, true, file_mode, base) matches Ok(entries) ==> input::tidy_entries(
        entries,
    )
}

/// A text that can be read at once can be fed line by line, and the stream gets its values.
proof fn lemma_text_fed(
    t: Tables<String, String>,
    outdir: Seq<char>,
    text: Seq<char>,
    file_mode: bool,
    base: Seq<char>,
) -> (values: Seq<Json>)
    requires
        well_read(text, file_mode, base),
        text_walk(text, file_mode, base) is Some,
    ensures
        same_lines::fed_values(same_lines::pieces(text)) == Some(values),
        text_walk(text, file_mode, base) == Some(
            same_stored::stream_walk(input::collection_name(file_mode, base), values),
        ),
        t.holds(text_log(outdir, text, file_mode, base)) && tables::facts_fit(
            text_log(outdir, text, file_mode, base),
        ) ==> same_stored::streamed_into(
            t,
            outdir,
            input::collection_name(file_mode, base),
            values,
        ),
{
    let values = input::lines_values(input::lines(text))->Ok_0;
    let root = input::collection_name(file_mode, base);
    let members = input::members_of_collection(root, values);
    same_lines::law_lines_read_alike(text);
    same_lines::law_feeding_records_all_values(
        path::reference(outdir, seq![root]),
        same_lines::pieces(text),
    );
    assert(input::all_tidy(values)) by {
        assert forall|i: int| 0 <= i < values.len() implies json::tidy(#[trigger] values[i]) by {
            assert(values[i] is Object);
            assert(json::tidy_fields(members[i].fields));
            assert(values[i] == Json::Object(members[i].fields));
        }
    }
    values
}

/// `streamed` stores what `whole` does: the same schemas, object paths, item positions, object
/// counts and field counts with their labels, and the relations of the records that are not
/// overridden, perhaps in another order. If no two of the records have one schema path, those
/// are all relations.
pub open spec fn agree(streamed: Stored, whole: Stored, recs: Seq<Rec>) -> bool {
    &&& streamed.definitions == whole.definitions
    &&& streamed.paths == whole.paths
    &&& streamed.refs == whole.refs
    &&& streamed.objects == whole.objects
    &&& streamed.fields == whole.fields
    &&& streamed.relations.to_multiset() == same_stored::kept_relations(recs, whole).to_multiset()
    &&& same_index::schemas_apart(recs) ==> streamed.relations.to_multiset()
        == whole.relations.to_multiset()
}

/// The tables of a stream that the lines of a text were fed to give what the text gives when it
/// is read at once and indexed.
pub proof fn law_text_streams_as_it_reads(
    t: Tables<String, String>,
    outdir: Seq<char>,
    text: Seq<char>,
    file_mode: bool,
    base: Seq<char>,
)
    requires
        well_read(text, file_mode, base),
        stored_of_text(outdir, text, file_mode, base) is Some,
        t.holds(text_log(outdir, text, file_mode, base)),
        tables::facts_fit(text_log(outdir, text, file_mode, base)),
    ensures
        agree(
            catalog::stored_of_tables(t),
            stored_of_text(outdir, text, file_mode, base)->0,
            records::built(outdir, text_walk(text, file_mode, base)->0),
        ),
{
    let root = input::collection_name(file_mode, base);
    let values = lemma_text_fed(t, outdir, text, file_mode, base);
    same_stored::law_streaming_stores_the_same(t, outdir, root, values);
    same_stored::law_streaming_relates_the_same(t, outdir, root, values);
}

/// The machine can hold what a stream of the lines of a text records: each single count, a
/// number for each name, and the number of the values.
pub open spec fn text_fits(
    outdir: Seq<char>,
    text: Seq<char>,
    file_mode: bool,
    base: Seq<char>,
) -> bool {
    &&& tables::facts_fit(text_log(outdir, text, file_mode, base))
    &&& names::fits(text_names(outdir, text, file_mode, base))
    &&& same_lines::fed_values(same_lines::pieces(text)) matches Some(values) ==> values.len()
        <= usize::MAX
}

/// A text that can be read at once can be fed to a stream line by line.
pub proof fn law_text_can_be_streamed(
    outdir: Seq<char>,
    text: Seq<char>,
    file_mode: bool,
    base: Seq<char>,
    n: int,
)
    requires
        well_read(text, file_mode, base),
        text_walk(text, file_mode, base) is Some,
        text_fits(outdir, text, file_mode, base),
        0 <= n < same_lines::pieces(text).len(),
    ensures
        same_lines::can_be_fed(
            path::reference(outdir, seq![input::collection_name(file_mode, base)]),
            same_lines::pieces(text),
            n,
        ),
{
    same_lines::law_lines_read_alike(text);
    same_lines::law_feeding_succeeds(
        path::reference(outdir, seq![input::collection_name(file_mode, base)]),
        same_lines::pieces(text),
        n,
    );
}

/// Streaming a text does what reading it at once does. If the text can be read and every object
/// in it can be counted, then a stream takes every line, at least one value comes in, and the
/// tables of the stream give what is stored of the text.
pub proof fn law_streaming_is_reading(
    outdir: Seq<char>,
    text: Seq<char>,
    file_mode: bool,
    base: Seq<char>,
)
    requires
        well_read(text, file_mode, base),
        stored_of_text(outdir, text, file_mode, base) is Some,
        text_fits(outdir, text, file_mode, base),
    ensures
        forall|n: int|
            0 <= n < same_lines::pieces(text).len() ==> #[trigger] same_lines::can_be_fed(
                path::reference(outdir, seq![input::collection_name(file_mode, base)]),
                same_lines::pieces(text),
                n,
            ),
        same_lines::fed_values(same_lines::pieces(text)) is Some,
        same_lines::fed_values(same_lines::pieces(text))->0.len() > 0,
        forall|t: Tables<String, String>| #[trigger]
            t.holds(text_log(outdir, text, file_mode, base)) ==> agree(
                catalog::stored_of_tables(t),
                stored_of_text(outdir, text, file_mode, base)->0,
                records::built(outdir, text_walk(text, file_mode, base)->0),
            ),
{
    same_lines::law_lines_read_alike(text);
    assert forall|n: int|
        0 <= n < same_lines::pieces(text).len() implies #[trigger] same_lines::can_be_fed(
        path::reference(outdir, seq![input::collection_name(file_mode, base)]),
        same_lines::pieces(text),
        n,
    ) by {
        law_text_can_be_streamed(outdir, text, file_mode, base, n);
    }
    assert forall|t: Tables<String, String>| #[trigger]
        t.holds(text_log(outdir, text, file_mode, base)) implies agree(
        catalog::stored_of_tables(t),
        stored_of_text(outdir, text, file_mode, base)->0,
        records::built(outdir, text_walk(text, file_mode, base)->0),
    ) by {
        law_text_streams_as_it_reads(t, outdir, text, file_mode, base);
    }
}

} // verus!
