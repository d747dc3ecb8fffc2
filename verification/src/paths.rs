//! Paths held as text, and the parts of them the converter reads.
//!
//! Splitting a path into components follows the platform's rules, which
//! std's `Path` implements; those results are named here rather than
//! restated. Extension and stem are defined on the file name as std's
//! documentation defines them.

use vstd::prelude::*;

verus! {

/// The final component of `path` (std `Path::file_name`), if it has one.
pub uninterp spec fn path_file_name(path: Seq<char>) -> Option<Seq<char>>;

/// `path` without its final component (std `Path::parent`), if it has one.
pub uninterp spec fn path_parent(path: Seq<char>) -> Option<Seq<char>>;

/// `tail` appended to `base` as a path (std `Path::join`).
pub uninterp spec fn path_join(base: Seq<char>, tail: Seq<char>) -> Seq<char>;

/// The index of the last '.' in `name`, if any.
pub open spec fn last_dot(name: Seq<char>) -> Option<int>
    decreases name.len(),
{
    if name.len() == 0 {
        None
    } else if name.last() == '.' {
        Some(name.len() - 1)
    } else {
        last_dot(name.drop_last())
    }
}

/// The extension of a file name: the part after the final '.', unless
/// there is no '.' or the only one starts the name.
pub open spec fn name_extension(name: Seq<char>) -> Option<Seq<char>> {
    match last_dot(name) {
        Some(i) => if i > 0 { Some(name.skip(i + 1)) } else { None },
        None => None,
    }
}

/// The stem of a file name: the part before the final '.', or the whole
/// name when there is no '.' or the only one starts the name.
pub open spec fn name_stem(name: Seq<char>) -> Seq<char> {
    match last_dot(name) {
        Some(i) => if i > 0 { name.take(i) } else { name },
        None => name,
    }
}

/// The extension of a path (std `Path::extension`).
pub open spec fn path_extension(path: Seq<char>) -> Option<Seq<char>> {
    match path_file_name(path) {
        Some(name) => name_extension(name),
        None => None,
    }
}

/// The file stem of a path (std `Path::file_stem`).
pub open spec fn path_file_stem(path: Seq<char>) -> Option<Seq<char>> {
    match path_file_name(path) {
        Some(name) => Some(name_stem(name)),
        None => None,
    }
}

/// The text of an optional string.
pub open spec fn text_of(s: Option<String>) -> Option<Seq<char>> {
    match s {
        Some(v) => Some(v@),
        None => None,
    }
}

/// std `Path::file_name`: the final component of `path`; its result is
/// the named `path_file_name`.
#[verifier::external_body]
pub(crate) fn file_name(path: &str) -> (name: Option<String>)
    ensures
        text_of(name) == path_file_name(path@),
{
    std::path::Path::new(path).file_name().and_then(|n| n.to_str()).map(|n| n.to_string())
}

/// std `Path::extension`: claims, as std documents it, that the result is
/// the part of the file name after its final '.', and nothing when there
/// is no file name, no '.', or only a leading '.'.
#[verifier::external_body]
pub(crate) fn extension(path: &str) -> (ext: Option<String>)
    ensures
        text_of(ext) == path_extension(path@),
{
    std::path::Path::new(path).extension().and_then(|e| e.to_str()).map(|e| e.to_string())
}

/// std `Path::file_stem`: claims, as std documents it, that the result is
/// the file name up to its final '.', the whole name when there is no '.'
/// or only a leading one, and nothing when there is no file name.
#[verifier::external_body]
pub(crate) fn file_stem(path: &str) -> (stem: Option<String>)
    ensures
        text_of(stem) == path_file_stem(path@),
{
    std::path::Path::new(path).file_stem().and_then(|s| s.to_str()).map(|s| s.to_string())
}

/// std `Path::parent`; its result is the named `path_parent`.
#[verifier::external_body]
pub(crate) fn parent(path: &str) -> (dir: Option<String>)
    ensures
        text_of(dir) == path_parent(path@),
{
    std::path::Path::new(path).parent().and_then(|d| d.to_str()).map(|d| d.to_string())
}

/// std `Path::join`; its result is the named `path_join`.
#[verifier::external_body]
pub(crate) fn join(base: &str, tail: &str) -> (joined: String)
    ensures
        joined@ == path_join(base@, tail@),
{
    std::path::Path::new(base).join(tail).to_string_lossy().into_owned()
}

} // verus!
