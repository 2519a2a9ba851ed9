//! The stored history as plain data, and what a change does to it.
//!
//! The store holds the entries in the order in which they were first seen.
//! It only grows: a change adds an entry or adds a version to one, and
//! nothing that was stored is ever altered or dropped.

use crate::entry::{File, FileContent, FileContentView, FileView};
use crate::error::Error;
use crate::lookup::{all_have_history, distinct_paths, find, find_file, knows, lemma_find};
use crate::rating::Rating;
use crate::reconcile::{Change, ChangeView};
use vstd::prelude::*;

verus! {

/// Whether the store takes a change: a new entry needs an unknown path, a new
/// version a known one. A removal from disk is no matter of the store.
pub open spec fn accepts(db: Seq<FileView>, change: ChangeView) -> bool {
    match change {
        ChangeView::Create { path, version } => !knows(db, path),
        ChangeView::Append { path, version } => knows(db, path),
        ChangeView::Remove { path } => true,
    }
}

/// The store after a change. A change that the store does not take leaves it
/// as it was.
pub open spec fn applied(db: Seq<FileView>, change: ChangeView) -> Seq<FileView> {
    match change {
        ChangeView::Create { path, version } => if knows(db, path) {
            db
        } else {
            db.push(FileView { path, file_contents: seq![version], rating: Rating::prior() })
        },
        ChangeView::Append { path, version } => match find(db, path) {
            Some(i) => db.update(i, db[i].with_version(version)),
            None => db,
        },
        ChangeView::Remove { path } => db,
    }
}

/// The store after the given changes, one after the other.
pub open spec fn applied_all(db: Seq<FileView>, changes: Seq<ChangeView>) -> Seq<FileView>
    decreases changes.len(),
{
    if changes.len() == 0 {
        db
    } else {
        applied(applied_all(db, changes.drop_last()), changes.last())
    }
}

/// `after` holds every entry of `before`, at its place and under its path,
/// and every version of it, at its place and as it was.
pub open spec fn extends(before: Seq<FileView>, after: Seq<FileView>) -> bool {
    &&& before.len() <= after.len()
    &&& forall|i: int|
        0 <= i < before.len() ==> {
            &&& (#[trigger] after[i]).path == before[i].path
            &&& before[i].file_contents.is_prefix_of(after[i].file_contents)
        }
}

/// A change never takes an entry or a version away, and never alters one: the
/// number of versions of a path can only grow.
pub proof fn lemma_applied_extends(db: Seq<FileView>, change: ChangeView)
    ensures
        extends(db, applied(db, change)),
{
    let after = applied(db, change);
    match change {
        ChangeView::Append { path, version } => {
            lemma_find(db, path);
            assert forall|i: int| 0 <= i < db.len() implies {
                &&& (#[trigger] after[i]).path == db[i].path
                &&& db[i].file_contents.is_prefix_of(after[i].file_contents)
            } by {
                assert(db[i].file_contents.is_prefix_of(db[i].file_contents.push(version)));
            }
        },
        _ => {},
    }
}

/// Extending is transitive.
pub proof fn lemma_extends_chain(a: Seq<FileView>, b: Seq<FileView>, c: Seq<FileView>)
    requires
        extends(a, b),
        extends(b, c),
    ensures
        extends(a, c),
{
    assert forall|i: int| 0 <= i < a.len() implies {
        &&& (#[trigger] c[i]).path == a[i].path
        &&& a[i].file_contents.is_prefix_of(c[i].file_contents)
    } by {
        assert(b[i].path == a[i].path);
        assert(a[i].file_contents.is_prefix_of(b[i].file_contents));
        assert(b[i].file_contents.is_prefix_of(c[i].file_contents));
    }
}

/// Whatever changes are applied, in one pass or in many, the store extends
/// what it was: no entry and no version is ever deleted or altered.
pub proof fn lemma_applied_all_extends(db: Seq<FileView>, changes: Seq<ChangeView>)
    ensures
        extends(db, applied_all(db, changes)),
    decreases changes.len(),
{
    if changes.len() > 0 {
        let before = applied_all(db, changes.drop_last());
        lemma_applied_all_extends(db, changes.drop_last());
        lemma_applied_extends(before, changes.last());
        lemma_extends_chain(db, before, applied(before, changes.last()));
    }
}

/// A store is in order when no two entries share a path and every entry has
/// a version.
pub open spec fn in_order(db: Seq<FileView>) -> bool {
    distinct_paths(db) && all_have_history(db)
}

/// A change leaves a store in order.
pub proof fn lemma_applied_keeps_order(db: Seq<FileView>, change: ChangeView)
    requires
        in_order(db),
    ensures
        in_order(applied(db, change)),
{
    let after = applied(db, change);
    match change {
        ChangeView::Create { path, version } => {
            lemma_find(db, path);
        },
        ChangeView::Append { path, version } => {
            lemma_find(db, path);
            assert forall|i: int, j: int| 0 <= i < j < after.len() implies (#[trigger] after[i])
                .path != (#[trigger] after[j]).path by {
                assert(db[i].path != db[j].path);
            }
            assert forall|i: int| 0 <= i < after.len() implies (#[trigger] after[i])
                .file_contents.len() > 0 by {
                assert(db[i].file_contents.len() > 0);
            }
        },
        ChangeView::Remove { path } => {},
    }
}

/// Whatever changes are applied, and however many of them, a store in order
/// stays in order.
pub proof fn lemma_applied_all_keeps_order(db: Seq<FileView>, changes: Seq<ChangeView>)
    requires
        in_order(db),
    ensures
        in_order(applied_all(db, changes)),
    decreases changes.len(),
{
    if changes.len() > 0 {
        lemma_applied_all_keeps_order(db, changes.drop_last());
        lemma_applied_keeps_order(applied_all(db, changes.drop_last()), changes.last());
    }
}

/// The versions stored under a path, oldest first; none where the path is
/// not known.
pub open spec fn versions_of(db: Seq<FileView>, path: Seq<char>) -> Seq<FileContentView> {
    match find(db, path) {
        Some(i) => db[i].file_contents,
        None => Seq::empty(),
    }
}

/// The history of a path only grows: whatever changes are applied, the
/// versions that were stored under the path are still there, each at its
/// place and as it was, so their number never goes down.
pub proof fn lemma_history_only_grows(
    db: Seq<FileView>,
    changes: Seq<ChangeView>,
    path: Seq<char>,
)
    ensures
        versions_of(db, path).is_prefix_of(versions_of(applied_all(db, changes), path)),
        versions_of(db, path).len() <= versions_of(applied_all(db, changes), path).len(),
{
    let after = applied_all(db, changes);
    lemma_applied_all_extends(db, changes);
    lemma_find(db, path);
    match find(db, path) {
        Some(i) => {
            assert(after[i].path == path);
            assert forall|j: int| 0 <= j < i implies (#[trigger] after[j]).path != path by {
                assert(db[j].path != path);
            }
            crate::lookup::lemma_find_first(after, path, i);
        },
        None => {},
    }
}

/// Applying two runs of changes is applying the one after the other.
pub proof fn lemma_applied_all_concat(
    db: Seq<FileView>,
    first: Seq<ChangeView>,
    second: Seq<ChangeView>,
)
    ensures
        applied_all(db, first + second) == applied_all(applied_all(db, first), second),
    decreases second.len(),
{
    if second.len() == 0 {
        assert(first + second =~= first);
    } else {
        assert((first + second).drop_last() =~= first + second.drop_last());
        assert((first + second).last() == second.last());
        lemma_applied_all_concat(db, first, second.drop_last());
    }
}

/// Applies one change to the entries `db`.
///
/// A new entry under a known path and a new version for an unknown path are
/// refused, and the entries stay as they were.
pub fn apply(db: &mut Vec<File>, change: Change) -> (result: Result<(), Error>)
    ensures
        final(db).deep_view() == applied(old(db).deep_view(), change@),
        extends(old(db).deep_view(), final(db).deep_view()),
        match result {
            Ok(_) => accepts(old(db).deep_view(), change@),
            Err(Error::KnownPath) => change is Create && !accepts(old(db).deep_view(), change@),
            Err(Error::UnknownPath) => change is Append && !accepts(old(db).deep_view(), change@),
            Err(_) => false,
        },
{
    proof {
        lemma_applied_extends(db.deep_view(), change@);
    }
    match change {
        Change::Create { path, version } => {
            if find_file(db, &path).is_some() {
                return Err(Error::KnownPath);
            }
            let mut history: Vec<FileContent> = Vec::new();
            history.push(version);
            assert(history.deep_view() =~= seq![version@]);
            let file = File::new(path, history);
            db.push(file);
            assert(db.deep_view() =~= old(db).deep_view().push(file@));
            Ok(())
        },
        Change::Append { path, version } => {
            match find_file(db, &path) {
                None => Err(Error::UnknownPath),
                Some(i) => {
                    let ghost before = db.deep_view();
                    let ghost entry = db[i as int]@;
                    assert(entry == before[i as int]);
                    let mut file = db.remove(i);
                    file.file_contents.push(version);
                    assert(file.file_contents.deep_view() =~= entry.file_contents.push(version@));
                    assert(file@ == entry.with_version(version@));
                    db.insert(i, file);
                    assert(db.deep_view() =~= before.update(
                        i as int,
                        entry.with_version(version@),
                    ));
                    Ok(())
                },
            }
        },
        Change::Remove { path } => Ok(()),
    }
}

} // verus!
