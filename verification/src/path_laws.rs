//! What holds of paths, positions as texts, and output directories.

use crate::index_path;
use crate::outdir;
use crate::path;
use crate::text;
use vstd::prelude::*;

verus! {

/// A key is one segment of a path: two parts of a key are written one behind the other, `%` and
/// `/` by their codes, every other character as it is.
pub proof fn law_segments(a: Seq<char>, b: Seq<char>, c: char)
    ensures
        path::segment(a + b) == path::segment(a) + path::segment(b),
        path::segment(seq!['%']) == seq!['%', '2', '5'],
        path::segment(seq!['/']) == seq!['%', '2', 'F'],
        c != '%' && c != '/' ==> path::segment(seq![c]) == seq![c],
{
    path::lemma_segment_concat(a, b);
    path::lemma_segment_char('%');
    path::lemma_segment_char('/');
    path::lemma_segment_char(c);
}

/// The path of keys is the output directory and their segments, with `/` between them; one more
/// key puts one more segment at its end. Schemas are in files with `.json` at their end.
pub proof fn law_paths_grow_by_segments(
    outdir: Seq<char>,
    keys: Seq<Seq<char>>,
    key: Seq<char>,
    base: Seq<char>,
)
    ensures
        path::reference(outdir, seq![key]) == outdir + seq!['/'] + path::segment(key),
        keys.len() > 0 ==> path::reference(outdir, keys.push(key)) == path::reference(outdir, keys)
            + seq!['/'] + path::segment(key),
        path::child_prefix(outdir, keys) + path::segment(key) == path::reference(
            outdir,
            keys.push(key),
        ),
        path::child(base, key) == base + seq!['/'] + path::segment(key),
        path::json_file(base) == base + seq!['.', 'j', 's', 'o', 'n'],
{
    reveal_strlit("/");
    reveal_strlit(".json");
    assert("/"@ =~= seq!['/']);
    assert(".json"@ =~= seq!['.', 'j', 's', 'o', 'n']);
    path::lemma_reference_push(outdir, keys, key);
    let one = path::segments_of(seq![key]);
    assert(one =~= seq![path::segment(key)]);
    assert(text::joined(one, "/"@) == path::segment(key));
}

/// The texts of positions: one more place stands behind the others, in decimal, with a separator
/// ahead of it unless it is the first.
pub proof fn law_positions_as_texts(index: Seq<nat>, n: nat)
    ensures
        path::file_stem(seq![n]) == text::decimal(n),
        index.len() > 0 ==> path::file_stem(index.push(n)) == path::file_stem(index) + seq!['_']
            + text::decimal(n),
        index_path::csv(seq![n]) == text::decimal(n),
        index.len() > 0 ==> index_path::csv(index.push(n)) == index_path::csv(index) + seq![',']
            + text::decimal(n),
        index_path::csv(Seq::empty()).len() == 0,
        index_path::json_text(index) == seq!['['] + index_path::csv(index) + seq![']'],
        index_path::sort_key(seq![n]) == text::padded_decimal(n, 20),
        index.len() > 0 ==> index_path::sort_key(index.push(n)) == index_path::sort_key(index)
            + seq!['/'] + text::padded_decimal(n, 20),
{
    reveal_strlit("_");
    reveal_strlit(",");
    reveal_strlit("/");
    reveal_strlit("[");
    reveal_strlit("]");
    assert("_"@ =~= seq!['_']);
    assert(","@ =~= seq![',']);
    assert("/"@ =~= seq!['/']);
    assert("["@ =~= seq!['[']);
    assert("]"@ =~= seq![']']);
    assert(path::decimals(seq![n]) =~= seq![text::decimal(n)]);
    assert(index_path::padded(seq![n]) =~= seq![text::padded_decimal(n, 20)]);
    let more = path::decimals(index.push(n));
    assert(more.drop_last() =~= path::decimals(index));
    assert(more.last() == text::decimal(n));
    let keys = index_path::padded(index.push(n));
    assert(keys.drop_last() =~= index_path::padded(index));
    assert(keys.last() == text::padded_decimal(n, 20));
}

/// The empty path, the root, the current directory and its parent are refused, by name; no other
/// output directory is.
pub proof fn law_refused_directories(d: Seq<char>)
    ensures
        outdir::is_unsafe(d) <==> d == Seq::<char>::empty() || d == seq!['/'] || d == seq!['.'] || d
            == seq!['.', '.'],
        outdir::unsafe_message(d) == "refusing unsafe output directory: "@ + d,
{
    reveal_strlit("/");
    reveal_strlit(".");
    reveal_strlit("..");
    assert("/"@ =~= seq!['/']);
    assert("."@ =~= seq!['.']);
    assert(".."@ =~= seq!['.', '.']);
    if d.len() == 0 {
        assert(d =~= Seq::empty());
    }
}

/// The path is another.
pub open spec fn is_other(schema_path: Seq<char>) -> spec_fn(Seq<char>) -> bool {
    |p: Seq<char>| p != schema_path
}

/// Links stand at the object paths that are not the path of the schema itself, in their order.
pub proof fn law_links(schema_path: Seq<char>, paths: Seq<Seq<char>>)
    ensures
        outdir::other_paths(schema_path, paths) == paths.filter(is_other(schema_path)),
    decreases paths.len(),
{
    reveal(Seq::filter);
    if paths.len() > 0 {
        law_links(schema_path, paths.drop_last());
    }
}

/// A link holds the relative path to its target where there is one, else the target.
pub proof fn law_link_targets(p: Seq<char>, target: Seq<char>)
    ensures
        outdir::link_path(Some(p), target) == p,
        outdir::link_path(None, target) == target,
{
}

} // verus!
