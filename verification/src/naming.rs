//! The name of the file that a diff is written to where none is given.

use vstd::prelude::*;
use vstd::string::StringExecFns;

verus! {

/// The stem that `Path::file_stem` finds in the path that `path` spells: its
/// last component without the extension, where the path has a last
/// component that is a name.
///
/// Paths are taken apart as on the platform that the library is built for,
/// from their text alone, so one path has one stem in every run.
pub uninterp spec fn path_file_stem(path: Seq<char>) -> Option<Seq<char>>;

/// The parent that `Path::parent` finds in the path that `path` spells: the
/// path without its last component, where it has one; it is empty for a
/// bare file name. Paths are taken apart as on the platform that the library
/// is built for, from their text alone, so one path has one parent in every
/// run.
pub uninterp spec fn path_parent(path: Seq<char>) -> Option<Seq<char>>;

/// The extension that `Path::extension` finds in the path that `path`
/// spells: what follows the last `.` of its last component, where that
/// component is a name with a `.` that is not its first character. It
/// depends on the text of the path alone, as the stem does.
pub uninterp spec fn path_extension(path: Seq<char>) -> Option<Seq<char>>;

/// `Path::file_stem` of the path that `file_name` spells, as text: its last
/// component without the extension, or nothing where the path has no last
/// component. The stem of a path that is given as text is text.
#[verifier::external_body]
fn file_stem_of(file_name: &str) -> (stem: Option<String>)
    ensures
        stem matches Some(text) ==> path_file_stem(file_name@) == Some(text@),
        stem is None ==> path_file_stem(file_name@) is None,
{
    Some(std::path::Path::new(file_name).file_stem()?.to_str()?.to_string())
}

/// `Path::parent` of the path that `file_name` spells, as text: the path
/// without its last component, or nothing where it has none to take off.
/// The parent of a path that is given as text is text.
#[verifier::external_body]
fn parent_of(file_name: &str) -> (dir: Option<String>)
    ensures
        dir matches Some(text) ==> path_parent(file_name@) == Some(text@),
        dir is None ==> path_parent(file_name@) is None,
{
    Some(std::path::Path::new(file_name).parent()?.to_str()?.to_string())
}

/// `Path::extension` of the path that `file_name` spells, as text: what
/// follows the last `.` of its last component, or nothing where there is no
/// such `.`. The extension of a path that is given as text is text.
#[verifier::external_body]
fn extension_of(file_name: &str) -> (extension: Option<String>)
    ensures
        extension matches Some(text) ==> path_extension(file_name@) == Some(text@),
        extension is None ==> path_extension(file_name@) is None,
{
    Some(std::path::Path::new(file_name).extension()?.to_str()?.to_string())
}

/// What a name ends in: a `.` and its extension, or `.png` where it has
/// none.
pub open spec fn ending(extension: Option<Seq<char>>) -> Seq<char> {
    match extension {
        Some(text) => "."@ + text,
        None => ".png"@,
    }
}

/// The name `stem` with `suffix` before its extension, in the directory
/// `dir` where that is not empty.
pub open spec fn suffixed(
    dir: Seq<char>,
    stem: Seq<char>,
    suffix: Seq<char>,
    extension: Option<Seq<char>>,
) -> Seq<char> {
    if dir.len() == 0 {
        stem + suffix + ending(extension)
    } else {
        dir + "/"@ + stem + suffix + ending(extension)
    }
}

/// The extension as a sequence of characters, where there is one.
pub open spec fn extension_view(extension: Option<&str>) -> Option<Seq<char>> {
    match extension {
        Some(text) => Some(text@),
        None => None,
    }
}

/// Puts a file name together from its directory, its stem, a suffix and its
/// extension: `dir/stem`, the suffix, a `.` and the extension. It is without
/// `dir/` where `dir` is empty, and ends in `.png` where there is no
/// extension.
pub fn suffixed_name(dir: &str, stem: &str, suffix: &str, extension: Option<&str>) -> (name: String)
    ensures
        name@ == suffixed(dir@, stem@, suffix@, extension_view(extension)),
{
    let mut name = String::new();
    if !dir.is_empty() {
        name.append(dir);
        name.append("/");
    }
    name.append(stem);
    name.append(suffix);
    match extension {
        Some(text) => {
            name.append(".");
            name.append(text);
        },
        None => {
            name.append(".png");
        },
    }
    name
}

/// The path `path` with `suffix` put before its extension: the parent of
/// the path, a `/` where the parent is not empty, the stem of its last
/// component, the suffix, a `.` and the extension of the path, or `.png`
/// where it has no extension. There is none where the path has no stem or no
/// parent.
pub open spec fn suffixed_path(path: Seq<char>, suffix: Seq<char>) -> Option<Seq<char>> {
    match (path_file_stem(path), path_parent(path)) {
        (Some(stem), Some(dir)) => Some(suffixed(dir, stem, suffix, path_extension(path))),
        _ => None,
    }
}

/// Adds a suffix to the name of an image file, before its extension, which
/// it keeps; a name without an extension gets `.png`. There is no such name
/// where the path has no file name.
pub fn add_suffix_to_file_name(file_name: &str, suffix: &str) -> (name: Option<String>)
    ensures
        name matches Some(text) ==> suffixed_path(file_name@, suffix@) == Some(text@),
        name is None ==> suffixed_path(file_name@, suffix@) is None,
{
    let stem = match file_stem_of(file_name) {
        Some(stem) => stem,
        None => {
            return None;
        },
    };
    let dir = match parent_of(file_name) {
        Some(dir) => dir,
        None => {
            return None;
        },
    };
    let name = match extension_of(file_name) {
        Some(extension) => suffixed_name(dir.as_str(), stem.as_str(), suffix, Some(extension.as_str())),
        None => suffixed_name(dir.as_str(), stem.as_str(), suffix, None),
    };
    Some(name)
}

} // verus!
