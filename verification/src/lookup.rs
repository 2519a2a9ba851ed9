//! Finding an entry by its path.

use crate::entry::{File, FileView};
use vstd::prelude::*;

verus! {

/// The position of the first entry with the given path.
pub open spec fn find(files: Seq<FileView>, path: Seq<char>) -> Option<int>
    decreases files.len(),
{
    if files.len() == 0 {
        None
    } else {
        match find(files.drop_last(), path) {
            Some(i) => Some(i),
            None => if files.last().path == path {
                Some(files.len() - 1)
            } else {
                None
            },
        }
    }
}

/// Whether some entry has the given path.
pub open spec fn knows(files: Seq<FileView>, path: Seq<char>) -> bool {
    find(files, path) is Some
}

/// Whether the given path belongs to an entry that is live.
pub open spec fn is_live_path(files: Seq<FileView>, path: Seq<char>) -> bool {
    find(files, path) matches Some(i) && files[i].is_live()
}

/// Whether the given path belongs to an entry that is deleted.
pub open spec fn is_deleted_path(files: Seq<FileView>, path: Seq<char>) -> bool {
    find(files, path) matches Some(i) && files[i].is_deleted()
}

/// Every entry has at least one version.
pub open spec fn all_have_history(db: Seq<FileView>) -> bool {
    forall|i: int| 0 <= i < db.len() ==> (#[trigger] db[i]).file_contents.len() > 0
}

/// No two entries share a path.
pub open spec fn distinct_paths(files: Seq<FileView>) -> bool {
    forall|i: int, j: int|
        0 <= i < j < files.len() ==> (#[trigger] files[i]).path != (#[trigger] files[j]).path
}

/// `find` returns the first position that holds the path, and `None` exactly
/// when no position does.
pub proof fn lemma_find(files: Seq<FileView>, path: Seq<char>)
    ensures
        match find(files, path) {
            Some(i) => {
                &&& 0 <= i < files.len()
                &&& files[i].path == path
                &&& forall|j: int| 0 <= j < i ==> (#[trigger] files[j]).path != path
            },
            None => forall|j: int| 0 <= j < files.len() ==> (#[trigger] files[j]).path != path,
        },
    decreases files.len(),
{
    if files.len() > 0 {
        let front = files.drop_last();
        lemma_find(front, path);
        assert(forall|j: int| 0 <= j < front.len() ==> front[j] == files[j]);
        match find(front, path) {
            Some(i) => {
                assert(files[i] == front[i]);
                assert forall|j: int| 0 <= j < i implies (#[trigger] files[j]).path != path by {
                    assert(front[j].path != path);
                }
            },
            None => {
                assert forall|j: int| 0 <= j < front.len() implies (#[trigger] files[j]).path
                    != path by {
                    assert(front[j].path != path);
                }
            },
        }
    }
}

/// The first position that holds the path is what `find` returns.
pub proof fn lemma_find_first(files: Seq<FileView>, path: Seq<char>, i: int)
    requires
        0 <= i < files.len(),
        files[i].path == path,
        forall|j: int| 0 <= j < i ==> (#[trigger] files[j]).path != path,
    ensures
        find(files, path) == Some(i),
{
    lemma_find(files, path);
}

/// Where paths are distinct, an entry is found at its own place.
pub proof fn lemma_find_own(files: Seq<FileView>, j: int)
    requires
        distinct_paths(files),
        0 <= j < files.len(),
    ensures
        find(files, files[j].path) == Some(j),
{
    lemma_find(files, files[j].path);
}

/// Two stores hold the same paths at the same places.
pub open spec fn same_paths(a: Seq<FileView>, b: Seq<FileView>) -> bool {
    a.len() == b.len() && forall|i: int| 0 <= i < a.len() ==> (#[trigger] a[i]).path == b[i].path
}

/// A path is found at the same place in two stores that hold the same paths.
pub proof fn lemma_find_same_paths(a: Seq<FileView>, b: Seq<FileView>, path: Seq<char>)
    requires
        same_paths(a, b),
    ensures
        find(a, path) == find(b, path),
    decreases a.len(),
{
    if a.len() > 0 {
        let front = a.drop_last();
        let other = b.drop_last();
        assert forall|i: int| 0 <= i < front.len() implies (#[trigger] front[i]).path
            == other[i].path by {
            assert(a[i].path == b[i].path);
        }
        lemma_find_same_paths(front, other, path);
        assert(a[a.len() - 1].path == b[a.len() - 1].path);
    }
}

/// The position of the first entry with the given path.
pub fn find_file(files: &Vec<File>, path: &String) -> (found: Option<usize>)
    ensures
        match found {
            Some(i) => i < files.len() && find(files.deep_view(), path@) == Some(i as int),
            None => find(files.deep_view(), path@) is None,
        },
{
    let mut i: usize = 0;
    while i < files.len()
        invariant
            i <= files.len(),
            forall|j: int| 0 <= j < i ==> (#[trigger] files.deep_view()[j]).path != path@,
        decreases files.len() - i,
    {
        if files[i].path == *path {
            proof {
                lemma_find_first(files.deep_view(), path@, i as int);
            }
            return Some(i);
        }
        i += 1;
    }
    proof {
        lemma_find(files.deep_view(), path@);
    }
    None
}

/// The position of the first entry without any version.
pub fn first_without_history(db: &Vec<File>) -> (first: Option<usize>)
    ensures
        match first {
            Some(i) => {
                &&& i < db.len()
                &&& db.deep_view()[i as int].file_contents.len() == 0
                &&& all_have_history(db.deep_view().take(i as int))
            },
            None => all_have_history(db.deep_view()),
        },
{
    let mut i: usize = 0;
    while i < db.len()
        invariant
            i <= db.len(),
            all_have_history(db.deep_view().take(i as int)),
        decreases db.len() - i,
    {
        if db[i].file_contents.len() == 0 {
            return Some(i);
        }
        assert forall|j: int| 0 <= j < i + 1 implies (#[trigger] db.deep_view().take(
            i + 1,
        )[j]).file_contents.len() > 0 by {
            if j < i {
                assert(db.deep_view().take(i as int)[j] == db.deep_view().take(i + 1)[j]);
            }
        }
        i += 1;
    }
    assert(db.deep_view().take(db.len() as int) =~= db.deep_view());
    None
}

/// Whether the given path belongs to an entry that is live.
pub fn is_live_at(files: &Vec<File>, path: &String) -> (live: bool)
    ensures
        live == is_live_path(files.deep_view(), path@),
{
    match find_file(files, path) {
        Some(i) => {
            assert(files[i as int]@ == files.deep_view()[i as int]);
            files[i].is_live()
        },
        None => false,
    }
}

} // verus!
