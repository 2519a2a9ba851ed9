//! Aligning the stored history with what is on disk.
//!
//! One pass takes the entries as the store holds them and a snapshot of the
//! regular files under the root, and answers with the changes that make the
//! store agree with the snapshot. Nothing is ever taken out of a history: a
//! file that is gone gets a tombstone.

use crate::entry::{File, FileContent, FileContentView, FileView};
use crate::error::Error;
use crate::lookup::{all_have_history, find, find_file, first_without_history};
use vstd::prelude::*;

verus! {

/// A regular file of the snapshot: its path relative to the root, its
/// modification time in seconds since the epoch, and its bytes.
#[derive(Clone, Debug)]
pub struct FoundFile {
    pub path: String,
    pub modified: i64,
    pub bytes: Vec<u8>,
}

/// What a [`FoundFile`] holds.
pub struct FoundFileView {
    pub path: Seq<char>,
    pub modified: i64,
    pub bytes: Seq<u8>,
}

/// One change that a pass asks for.
#[derive(Clone, Debug)]
pub enum Change {
    /// Store a new entry with its first version.
    Create { path: String, version: FileContent },
    /// Store one more version of a known entry: new content, or a tombstone.
    Append { path: String, version: FileContent },
    /// Remove from disk a file whose entry is deleted.
    Remove { path: String },
}

/// What a [`Change`] holds.
pub enum ChangeView {
    Create { path: Seq<char>, version: FileContentView },
    Append { path: Seq<char>, version: FileContentView },
    Remove { path: Seq<char> },
}

impl View for FoundFile {
    type V = FoundFileView;

    open spec fn view(&self) -> FoundFileView {
        FoundFileView { path: self.path@, modified: self.modified, bytes: self.bytes@ }
    }
}

impl DeepView for FoundFile {
    type V = FoundFileView;

    open spec fn deep_view(&self) -> FoundFileView {
        self@
    }
}

impl View for Change {
    type V = ChangeView;

    open spec fn view(&self) -> ChangeView {
        match self {
            Change::Create { path, version } => ChangeView::Create {
                path: path@,
                version: version@,
            },
            Change::Append { path, version } => ChangeView::Append {
                path: path@,
                version: version@,
            },
            Change::Remove { path } => ChangeView::Remove { path: path@ },
        }
    }
}

impl DeepView for Change {
    type V = ChangeView;

    open spec fn deep_view(&self) -> ChangeView {
        self@
    }
}

impl FoundFileView {
    /// The version that this file would add to a history.
    pub open spec fn version(self) -> FileContentView {
        FileContentView { content: Some(self.bytes), at: self.modified }
    }
}

/// Whether some file of the snapshot sits at the given path.
pub open spec fn seen(found: Seq<FoundFileView>, path: Seq<char>) -> bool {
    exists|k: int| 0 <= k < found.len() && (#[trigger] found[k]).path == path
}

/// How one file of the snapshot stands to the history.
#[derive(Clone, Copy, Debug, PartialEq, Eq, Structural)]
pub enum Standing {
    /// No entry has the file's path.
    New,
    /// The entry of the file's path is deleted: history says the file is
    /// gone, the disk says it is there.
    Orphan,
    /// The entry of the file's path is live and its latest bytes are the
    /// file's bytes.
    Unchanged,
    /// The entry of the file's path holds other bytes.
    Changed,
}

/// How `file` stands to `db`. Only bytes are compared: a byte-identical file
/// is unchanged whatever its modification time.
pub open spec fn standing(db: Seq<FileView>, file: FoundFileView) -> Standing {
    match find(db, file.path) {
        None => Standing::New,
        Some(i) => if db[i].is_deleted() {
            Standing::Orphan
        } else if db[i].is_live() && db[i].file_contents.last().content == Some(file.bytes) {
            Standing::Unchanged
        } else {
            Standing::Changed
        },
    }
}

/// A file is in conflict when the entry of its path is deleted.
pub open spec fn in_conflict(db: Seq<FileView>, file: FoundFileView) -> bool {
    standing(db, file) == Standing::Orphan
}

/// What one file of the snapshot asks for.
///
/// - A new file: a new entry, whose first version holds the file's bytes and
///   modification time.
/// - An orphan: its removal from disk where the caller asked for that. It is
///   never brought back into the history.
/// - An unchanged file: nothing.
/// - A changed file: one more version.
pub open spec fn change_for(db: Seq<FileView>, file: FoundFileView, delete: bool) -> Option<
    ChangeView,
> {
    match standing(db, file) {
        Standing::New => Some(ChangeView::Create { path: file.path, version: file.version() }),
        Standing::Orphan => if delete {
            Some(ChangeView::Remove { path: file.path })
        } else {
            None
        },
        Standing::Unchanged => None,
        Standing::Changed => Some(
            ChangeView::Append { path: file.path, version: file.version() },
        ),
    }
}

/// The changes that the files of the snapshot ask for, in snapshot order.
pub open spec fn found_changes(db: Seq<FileView>, found: Seq<FoundFileView>, delete: bool) -> Seq<
    ChangeView,
>
    decreases found.len(),
{
    if found.len() == 0 {
        Seq::empty()
    } else {
        let before = found_changes(db, found.drop_last(), delete);
        match change_for(db, found.last(), delete) {
            Some(change) => before.push(change),
            None => before,
        }
    }
}

/// A tombstone, timestamped `now`, for every live entry that the snapshot
/// does not hold, in store order.
pub open spec fn tombstones(db: Seq<FileView>, found: Seq<FoundFileView>, now: i64) -> Seq<
    ChangeView,
>
    decreases db.len(),
{
    if db.len() == 0 {
        Seq::empty()
    } else {
        let before = tombstones(db.drop_last(), found, now);
        if db.last().is_live() && !seen(found, db.last().path) {
            before.push(
                ChangeView::Append {
                    path: db.last().path,
                    version: FileContentView { content: None, at: now },
                },
            )
        } else {
            before
        }
    }
}

/// All changes of one pass: first what the files ask for, then the tombstones.
pub open spec fn plan(db: Seq<FileView>, found: Seq<FoundFileView>, delete: bool, now: i64) -> Seq<
    ChangeView,
> {
    found_changes(db, found, delete) + tombstones(db, found, now)
}

/// Whether two byte vectors hold the same bytes.
pub fn same_bytes(a: &Vec<u8>, b: &Vec<u8>) -> (same: bool)
    ensures
        same == (a@ == b@),
{
    if a.len() != b.len() {
        return false;
    }
    let mut i: usize = 0;
    while i < a.len()
        invariant
            i <= a.len(),
            a.len() == b.len(),
            forall|j: int| 0 <= j < i ==> a[j] == b[j],
        decreases a.len() - i,
    {
        if a[i] != b[i] {
            return false;
        }
        i += 1;
    }
    assert(a@ =~= b@);
    true
}

/// Whether some file of the snapshot sits at the given path.
pub fn is_seen(found: &Vec<FoundFile>, path: &String) -> (hit: bool)
    ensures
        hit == seen(found.deep_view(), path@),
{
    let mut k: usize = 0;
    while k < found.len()
        invariant
            k <= found.len(),
            forall|j: int| 0 <= j < k ==> (#[trigger] found.deep_view()[j]).path != path@,
        decreases found.len() - k,
    {
        if found[k].path == *path {
            assert(found.deep_view()[k as int].path == path@);
            return true;
        }
        k += 1;
    }
    false
}

/// How `file` stands to the entries `db`.
pub fn classify(db: &Vec<File>, file: &FoundFile) -> (state: Standing)
    ensures
        state == standing(db.deep_view(), file@),
{
    match find_file(db, &file.path) {
        None => Standing::New,
        Some(i) => {
            let entry = &db[i];
            assert(entry@ == db.deep_view()[i as int]);
            match entry.last_content() {
                Some(latest) => match &latest.content {
                    None => Standing::Orphan,
                    Some(bytes) => if same_bytes(bytes, &file.bytes) {
                        Standing::Unchanged
                    } else {
                        Standing::Changed
                    },
                },
                None => Standing::Changed,
            }
        },
    }
}

/// Plans one pass over the snapshot `found` against the entries `db_files`.
///
/// The pass is refused as a whole where an entry has no version, and, unless
/// `delete_already_deleted` is set, where a file sits at the path of a deleted
/// entry. Otherwise the answer is [`plan`]: per file of the snapshot a new
/// entry, a new version, a removal or nothing, then a tombstone timestamped
/// `now` for every live entry that the snapshot lacks.
pub fn update_files(
    db_files: &Vec<File>,
    found: &Vec<FoundFile>,
    delete_already_deleted: bool,
    now: i64,
) -> (result: Result<Vec<Change>, Error>)
    ensures
        match result {
            Ok(changes) => {
                &&& all_have_history(db_files.deep_view())
                &&& delete_already_deleted || forall|k: int|
                    0 <= k < found.len() ==> !in_conflict(
                        db_files.deep_view(),
                        #[trigger] found.deep_view()[k],
                    )
                &&& changes.deep_view() == plan(
                    db_files.deep_view(),
                    found.deep_view(),
                    delete_already_deleted,
                    now,
                )
            },
            Err(Error::EmptyHistory { index }) => {
                &&& index < db_files.len()
                &&& db_files.deep_view()[index as int].file_contents.len() == 0
                &&& all_have_history(db_files.deep_view().take(index as int))
            },
            Err(Error::Conflict { index }) => {
                &&& all_have_history(db_files.deep_view())
                &&& !delete_already_deleted
                &&& index < found.len()
                &&& in_conflict(db_files.deep_view(), found.deep_view()[index as int])
                &&& forall|k: int|
                    0 <= k < index ==> !in_conflict(
                        db_files.deep_view(),
                        #[trigger] found.deep_view()[k],
                    )
            },
            Err(_) => false,
        },
{
    if let Some(index) = first_without_history(db_files) {
        return Err(Error::EmptyHistory { index });
    }
    let ghost db = db_files.deep_view();
    let ghost snapshot = found.deep_view();
    let mut changes: Vec<Change> = Vec::new();
    let mut k: usize = 0;
    while k < found.len()
        invariant
            k <= found.len(),
            db == db_files.deep_view(),
            snapshot == found.deep_view(),
            all_have_history(db),
            changes.deep_view() == found_changes(
                db,
                snapshot.take(k as int),
                delete_already_deleted,
            ),
            delete_already_deleted || forall|j: int|
                0 <= j < k ==> !in_conflict(db, #[trigger] snapshot[j]),
        decreases found.len() - k,
    {
        let file = &found[k];
        assert(file@ == snapshot[k as int]);
        assert(snapshot.take(k + 1).drop_last() == snapshot.take(k as int));
        assert(snapshot.take(k + 1).last() == snapshot[k as int]);
        let ghost before = changes.deep_view();
        match classify(db_files, file) {
            Standing::New => {
                let change = Change::Create {
                    path: file.path.clone(),
                    version: FileContent::new(file.bytes.clone(), file.modified),
                };
                changes.push(change);
                assert(changes.deep_view() == before.push(change@));
            },
            Standing::Orphan => {
                if !delete_already_deleted {
                    return Err(Error::Conflict { index: k });
                }
                let change = Change::Remove { path: file.path.clone() };
                changes.push(change);
                assert(changes.deep_view() == before.push(change@));
            },
            Standing::Unchanged => {},
            Standing::Changed => {
                let change = Change::Append {
                    path: file.path.clone(),
                    version: FileContent::new(file.bytes.clone(), file.modified),
                };
                changes.push(change);
                assert(changes.deep_view() == before.push(change@));
            },
        }
        k += 1;
    }
    assert(snapshot.take(found.len() as int) == snapshot);
    let ghost for_files = changes.deep_view();
    let mut i: usize = 0;
    while i < db_files.len()
        invariant
            i <= db_files.len(),
            db == db_files.deep_view(),
            snapshot == found.deep_view(),
            changes.deep_view() == for_files + tombstones(db.take(i as int), snapshot, now),
        decreases db_files.len() - i,
    {
        let entry = &db_files[i];
        assert(entry@ == db[i as int]);
        assert(db.take(i + 1).drop_last() == db.take(i as int));
        assert(db.take(i + 1).last() == db[i as int]);
        let ghost before = changes.deep_view();
        if entry.is_live() && !is_seen(found, &entry.path) {
            let change = Change::Append {
                path: entry.path.clone(),
                version: FileContent::tombstone(now),
            };
            changes.push(change);
            assert(changes.deep_view() == before.push(change@));
        }
        i += 1;
    }
    assert(db.take(db_files.len() as int) == db);
    Ok(changes)
}

} // verus!
