//! Paths: the key of a file under the root, and the place of a key on disk.

use crate::reconcile::{FoundFile, FoundFileView};
use camino::Utf8Path;
use vstd::prelude::*;

verus! {

/// What `camino::Utf8Path::strip_prefix` leaves of the path `full` once the
/// leading `base` is taken off; `None` where `base` does not lead `full`.
pub uninterp spec fn stripped(full: Seq<char>, base: Seq<char>) -> Option<Seq<char>>;

/// The path that `camino::Utf8Path::join` makes of `base` and `path`.
pub uninterp spec fn joined(base: Seq<char>, path: Seq<char>) -> Seq<char>;

/// Calls `camino::Utf8Path::strip_prefix`, which compares whole components
/// as `std::path::Path` does.
#[verifier::external_body]
fn strip_prefix(full: &str, base: &str) -> (rest: Option<String>)
    ensures
        match rest {
            Some(path) => stripped(full@, base@) == Some(path@),
            None => stripped(full@, base@) is None,
        },
{
    Utf8Path::new(full).strip_prefix(base).ok().map(|path| path.as_str().to_string())
}

/// Calls `camino::Utf8Path::join`.
#[verifier::external_body]
fn join(base: &str, path: &str) -> (whole: String)
    ensures
        whole@ == joined(base@, path@),
{
    Utf8Path::new(base).join(path).into_string()
}

/// A hidden file is one whose name starts with a dot.
pub open spec fn hidden(name: Seq<char>) -> bool {
    name.len() > 0 && name[0] == '.'
}

/// Whether a file of the given name is hidden.
pub fn is_hidden(name: &str) -> (yes: bool)
    ensures
        yes == hidden(name@),
{
    !name.is_empty() && name.get_char(0) == '.'
}

/// Whether a directory entry belongs to the snapshot: regular files do, but
/// for the hidden ones. Directories, links and all else do not.
pub fn is_candidate(is_regular_file: bool, name: &str) -> (yes: bool)
    ensures
        yes == (is_regular_file && !hidden(name@)),
{
    is_regular_file && !is_hidden(name)
}

/// The key of the file at `full`: its path relative to `root`. `None` where
/// the file is not under `root`.
pub fn key_of(full: &str, root: &str) -> (key: Option<String>)
    ensures
        match key {
            Some(path) => stripped(full@, root@) == Some(path@),
            None => stripped(full@, root@) is None,
        },
{
    strip_prefix(full, root)
}

/// The place on disk of the entry with the key `path`, under `root`.
pub fn place_of(root: &str, path: &str) -> (whole: String)
    ensures
        whole@ == joined(root@, path@),
{
    join(root, path)
}

/// A file of the snapshot: the file found at `full`, under its key relative
/// to `root`. `None` where the file is not under `root`.
pub fn found_file(root: &str, full: &str, modified: i64, bytes: Vec<u8>) -> (found: Option<
    FoundFile,
>)
    ensures
        match found {
            Some(file) => stripped(full@, root@) == Some(file@.path) && file@ == (FoundFileView {
                path: file@.path,
                modified,
                bytes: bytes@,
            }),
            None => stripped(full@, root@) is None,
        },
{
    match key_of(full, root) {
        Some(path) => Some(FoundFile { path, modified, bytes }),
        None => None,
    }
}

} // verus!
