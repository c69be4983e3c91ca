//! The output directory: which are refused, and where links in it point.

use crate::records;
use crate::records::Record;
use crate::text;
use crate::text::same_text;
use vstd::prelude::*;

verus! {

/// Removing and remaking such a directory would do harm.
pub open spec fn is_unsafe(outdir: Seq<char>) -> bool {
    outdir.len() == 0 || outdir == "/"@ || outdir == "."@ || outdir == ".."@
}

/// Why an output directory is refused.
pub open spec fn unsafe_message(outdir: Seq<char>) -> Seq<char> {
    "refusing unsafe output directory: "@ + outdir
}

/// Refuses the empty path, the root, the current directory and its parent.
pub fn reject_unsafe_outdir(outdir: &str) -> (r: Result<(), String>)
    ensures
        r is Err <==> is_unsafe(outdir@),
        r matches Err(message) ==> message@ == unsafe_message(outdir@),
{
    if outdir.unicode_len() == 0 || same_text(outdir, "/") || same_text(outdir, ".") || same_text(
        outdir,
        "..",
    ) {
        let mut message = "refusing unsafe output directory: ".to_string();
        message.append(outdir);
        return Err(message);
    }
    Ok(())
}

/// The object paths that are not the schema path itself, in their order.
pub open spec fn other_paths(schema_path: Seq<char>, paths: Seq<Seq<char>>) -> Seq<Seq<char>>
    decreases paths.len(),
{
    if paths.len() == 0 {
        Seq::empty()
    } else if paths.last() == schema_path {
        other_paths(schema_path, paths.drop_last())
    } else {
        other_paths(schema_path, paths.drop_last()).push(paths.last())
    }
}

/// The paths at which links to the schema file of a record stand.
pub fn link_paths(record: &Record) -> (r: Vec<String>)
    ensures
        text::models(r@) == other_paths(record.schema_path@, text::models(record.object_paths@)),
{
    let ghost all = text::models(record.object_paths@);
    let mut out: Vec<String> = Vec::new();
    let mut i: usize = 0;
    assert(all.take(0) =~= Seq::empty());
    assert(text::models(out@) =~= Seq::empty());
    while i < record.object_paths.len()
        invariant
            all == text::models(record.object_paths@),
            i <= record.object_paths@.len(),
            text::models(out@) == other_paths(record.schema_path@, all.take(i as int)),
        decreases record.object_paths@.len() - i,
    {
        let path = &record.object_paths[i];
        let ghost before = out@;
        proof {
            assert(all.take(i + 1).drop_last() =~= all.take(i as int));
            assert(all.take(i + 1).last() == path@);
        }
        if !same_text(path.as_str(), record.schema_path.as_str()) {
            out.push(path.clone());
            assert(text::models(out@) =~= text::models(before).push(path@));
        }
        i = i + 1;
    }
    assert(all.take(all.len() as int) =~= all);
    out
}

/// The path of `target` as seen from the directory `base`, on Unix.
pub uninterp spec fn relative_path(target: Seq<char>, base: Seq<char>) -> Option<Seq<char>>;

/// `pathdiff::diff_paths` compares the components of two paths. Paths are read by the rules of
/// the platform; links are made on Unix only.
#[verifier::external_body]
fn diff_paths(target: &str, base: &str) -> (r: Option<String>)
    ensures
        match r {
            Some(p) => relative_path(target@, base@) == Some(p@),
            None => relative_path(target@, base@) is None,
        },
{
    pathdiff::diff_paths(target, base).map(|p| p.to_string_lossy().into_owned())
}

/// Where a link points: along the relative path, or to the target itself if there is none.
pub open spec fn link_path(relative: Option<Seq<char>>, target: Seq<char>) -> Seq<char> {
    match relative {
        Some(p) => p,
        None => target,
    }
}

/// Chooses between the relative path and the target.
pub fn link_or_target(relative: Option<String>, target: &str) -> (r: String)
    ensures
        r@ == link_path(records::text_option(relative), target@),
{
    match relative {
        Some(p) => p,
        None => target.to_string(),
    }
}

/// What a link in the directory `link_dir` to the schema file `target` holds.
pub fn symlink_target(target: &str, link_dir: &str) -> (r: String)
    ensures
        r@ == link_path(relative_path(target@, link_dir@), target@),
{
    link_or_target(diff_paths(target, link_dir), target)
}

} // verus!
