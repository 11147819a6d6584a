//! What the library reads of file paths: extension, file name and parts,
//! as `std::path::Path` gives them, and the Unicode lower case of a text.

use vstd::prelude::*;

use crate::text::{owned, views};

verus! {

broadcast use vstd::seq_lib::group_seq_properties;

/// The text of an optional owned string.
pub open spec fn opt_text(o: Option<String>) -> Option<Seq<char>> {
    match o {
        Some(s) => Some(s@),
        None => None,
    }
}

/// What `Path::extension` gives for a path text, as text.
pub uninterp spec fn path_extension_of(path: Seq<char>) -> Option<Seq<char>>;

/// The extension of the file a path names (`std::path::Path::extension`),
/// as text; none when the file name has no extension.
#[verifier::external_body]
pub(crate) fn path_extension(path: &str) -> (r: Option<String>)
    ensures
        opt_text(r) == path_extension_of(path@),
{
    std::path::Path::new(path).extension().and_then(|e| e.to_str()).map(|e| e.to_string())
}

/// What `Path::file_name` gives for a path text, as text.
pub uninterp spec fn file_name_of(path: Seq<char>) -> Option<Seq<char>>;

/// The file name a path ends in (`std::path::Path::file_name`), as text;
/// none for a path ending in `..` or a root.
#[verifier::external_body]
pub(crate) fn file_name(path: &str) -> (r: Option<String>)
    ensures
        opt_text(r) == file_name_of(path@),
{
    std::path::Path::new(path).file_name().and_then(|n| n.to_str()).map(|n| n.to_string())
}

/// The kind of a path part: a plain name.
pub const PART_NAME: u8 = 0;

/// The kind of a path part: `.` at the start.
pub const PART_CURRENT: u8 = 1;

/// The kind of a path part: `..`.
pub const PART_PARENT: u8 = 2;

/// The kind of a path part: the root, or a drive prefix.
pub const PART_ROOT: u8 = 3;

/// The parts `Path::components` gives for a path text: each part's kind and
/// its text.
pub uninterp spec fn path_parts_of(path: Seq<char>) -> Seq<(u8, Seq<char>)>;

/// The parts of a path (`std::path::Path::components`), each with its kind
/// and text.
#[verifier::external_body]
pub(crate) fn path_parts(path: &str) -> (r: Vec<(u8, String)>)
    ensures
        r@.map_values(|p: (u8, String)| (p.0, p.1@)) == path_parts_of(path@),
{
    std::path::Path::new(path).components().map(
        |c| match c {
            std::path::Component::Normal(name) => (PART_NAME, name.to_string_lossy().into_owned()),
            std::path::Component::CurDir => (PART_CURRENT, String::from(".")),
            std::path::Component::ParentDir => (PART_PARENT, String::from("..")),
            std::path::Component::RootDir => (PART_ROOT, String::from("/")),
            std::path::Component::Prefix(p) => (PART_ROOT, p.as_os_str().to_string_lossy().into_owned()),
        },
    ).collect()
}

/// The plain names among a path's parts, in order.
pub open spec fn part_names(parts: Seq<(u8, Seq<char>)>) -> Seq<Seq<char>> {
    parts.filter(|p: (u8, Seq<char>)| p.0 == PART_NAME).map_values(|p: (u8, Seq<char>)| p.1)
}

/// Whether every part of a path is a plain name or `.`.
pub open spec fn plain_parts_only(parts: Seq<(u8, Seq<char>)>) -> bool {
    forall|i: int| 0 <= i < parts.len() ==> (#[trigger] parts[i]).0 == PART_NAME || parts[i].0 == PART_CURRENT
}

/// The plain names of a path, and whether every part is a plain name or
/// `.`.
pub fn plain_names(path: &str) -> (r: (Vec<String>, bool))
    ensures
        views(r.0@) == part_names(path_parts_of(path@)),
        r.1 == plain_parts_only(path_parts_of(path@)),
{
    let parts = path_parts(path);
    let ghost all = path_parts_of(path@);
    let mut names: Vec<String> = Vec::new();
    let mut plain = true;
    for i in 0..parts.len()
        invariant
            parts@.map_values(|p: (u8, String)| (p.0, p.1@)) == all,
            views(names@) == part_names(all.take(i as int)),
            plain == plain_parts_only(all.take(i as int)),
    {
        let kind = parts[i].0;
        let ghost before = all.take(i as int);
        assert(all.take(i + 1) =~= before.push(all[i as int]));
        assert(all[i as int] == (kind, parts@[i as int].1@));
        proof {
            before.lemma_filter_push(all[i as int], |p: (u8, Seq<char>)| p.0 == PART_NAME);
        }
        if kind == PART_NAME {
            let ghost v0 = views(names@);
            names.push(owned(parts[i].1.as_str()));
            assert(views(names@) =~= v0.push(all[i as int].1));
            assert(part_names(all.take(i + 1)) =~= part_names(before).push(all[i as int].1));
        } else {
            assert(part_names(all.take(i + 1)) =~= part_names(before));
        }
        if kind != PART_NAME && kind != PART_CURRENT {
            plain = false;
        }
        assert(plain == plain_parts_only(all.take(i + 1))) by {
            let next = all.take(i + 1);
            if plain_parts_only(before) && (kind == PART_NAME || kind == PART_CURRENT) {
                assert forall|j: int| 0 <= j < next.len() implies (#[trigger] next[j]).0 == PART_NAME || next[j].0
                    == PART_CURRENT by {
                    if j < i {
                        assert(next[j] == before[j]);
                    }
                }
            } else if !plain_parts_only(before) {
                let j = choose|j: int|
                    0 <= j < before.len() && !((#[trigger] before[j]).0 == PART_NAME || before[j].0 == PART_CURRENT);
                assert(next[j] == before[j]);
            } else {
                assert(next[i as int] == all[i as int]);
            }
        }
    }
    assert(all.take(parts@.len() as int) =~= all);
    (names, plain)
}

/// The Unicode lower case of a text (`str::to_lowercase`).
pub uninterp spec fn lowercase_of(text: Seq<char>) -> Seq<char>;

/// The text in Unicode lower case (`str::to_lowercase`).
#[verifier::external_body]
pub(crate) fn to_lowercase(text: &str) -> (r: String)
    ensures
        r@ == lowercase_of(text@),
{
    text.to_lowercase()
}

/// What `Path::parent` gives for a path text, as text.
pub uninterp spec fn parent_of(path: Seq<char>) -> Option<Seq<char>>;

/// The folder a path lies in (`std::path::Path::parent`), as text; none
/// for a root or an empty path.
#[verifier::external_body]
pub(crate) fn parent(path: &str) -> (r: Option<String>)
    ensures
        opt_text(r) == parent_of(path@),
{
    std::path::Path::new(path).parent().and_then(|p| p.to_str()).map(|p| p.to_string())
}

/// Whether `Path::starts_with` holds of two path texts.
pub uninterp spec fn path_starts_with_of(path: Seq<char>, base: Seq<char>) -> bool;

/// Whether `base` is a leading run of whole parts of `path`
/// (`std::path::Path::starts_with`).
#[verifier::external_body]
pub(crate) fn path_starts_with(path: &str, base: &str) -> (r: bool)
    ensures
        r == path_starts_with_of(path@, base@),
{
    std::path::Path::new(path).starts_with(std::path::Path::new(base))
}

} // verus!
