//! What a whole pass achieves: once its changes are stored, the store agrees
//! with the snapshot, and a second pass over the same snapshot stores nothing.

use crate::entry::{File, FileContentView, FileView};
use crate::error::Error;
use crate::lookup::{all_have_history, distinct_paths, find, lemma_find, lemma_find_own};
use crate::reconcile::{
    change_for, found_changes, in_conflict, plan, seen, standing, tombstones, update_files, Change,
    ChangeView, FoundFile, FoundFileView, Standing,
};
use crate::store::{
    applied, applied_all, extends, in_order, lemma_applied_all_concat, lemma_applied_extends,
};
use vstd::prelude::*;

verus! {

/// No two files of the snapshot share a path.
pub open spec fn distinct_found(found: Seq<FoundFileView>) -> bool {
    forall|i: int, j: int|
        0 <= i < j < found.len() ==> (#[trigger] found[i]).path != (#[trigger] found[j]).path
}

/// No file of the snapshot sits at the path of a deleted entry.
pub open spec fn no_conflict(db: Seq<FileView>, found: Seq<FoundFileView>) -> bool {
    forall|k: int| 0 <= k < found.len() ==> !in_conflict(db, #[trigger] found[k])
}

/// The entry is live and its latest bytes are those of the file at its path.
pub open spec fn holds(entry: FileView, file: FoundFileView) -> bool {
    &&& entry.path == file.path
    &&& entry.is_live()
    &&& entry.file_contents.last().content == Some(file.bytes)
}

/// How far the files `0..n` of the snapshot are settled in `mid`.
spec fn files_settled(
    db: Seq<FileView>,
    found: Seq<FoundFileView>,
    n: int,
    mid: Seq<FileView>,
) -> bool {
    &&& extends(db, mid)
    &&& distinct_paths(mid)
    &&& all_have_history(mid)
    &&& forall|k: int|
        0 <= k < n ==> in_conflict(db, #[trigger] found[k]) || exists|j: int|
            0 <= j < mid.len() && holds(mid[j], found[k])
    &&& forall|j: int|
        0 <= j < db.len() && (!seen(found.take(n), db[j].path) || db[j].is_deleted())
            ==> #[trigger] mid[j] == db[j]
    &&& forall|j: int| db.len() <= j < mid.len() ==> seen(found.take(n), (#[trigger] mid[j]).path)
}

/// A path that the first `n` files hold is held by the first `n + 1`.
proof fn lemma_seen_more(found: Seq<FoundFileView>, n: int, path: Seq<char>)
    requires
        0 <= n < found.len(),
        seen(found.take(n), path),
    ensures
        seen(found.take(n + 1), path),
{
    let front = found.take(n);
    let k = choose|k: int| 0 <= k < front.len() && (#[trigger] front[k]).path == path;
    assert(found.take(n + 1)[k].path == path);
}

/// The path of file `n` is not among the paths of the files before it.
proof fn lemma_unseen_before(found: Seq<FoundFileView>, n: int)
    requires
        distinct_found(found),
        0 <= n < found.len(),
    ensures
        !seen(found.take(n), found[n].path),
{
    if seen(found.take(n), found[n].path) {
        let k = choose|k: int|
            0 <= k < found.take(n).len() && (#[trigger] found.take(n)[k]).path == found[n].path;
        assert(found[k].path == found[n].path);
    }
}

/// One more file of the snapshot is settled once its change is stored.
proof fn lemma_file_step(
    db: Seq<FileView>,
    found: Seq<FoundFileView>,
    n: int,
    mid: Seq<FileView>,
    delete: bool,
)
    requires
        distinct_paths(db),
        all_have_history(db),
        distinct_found(found),
        0 <= n < found.len(),
        files_settled(db, found, n, mid),
    ensures
        files_settled(
            db,
            found,
            n + 1,
            match change_for(db, found[n], delete) {
                Some(change) => applied(mid, change),
                None => mid,
            },
        ),
{
    let file = found[n];
    let path = file.path;
    let next = match change_for(db, file, delete) {
        Some(change) => applied(mid, change),
        None => mid,
    };
    lemma_find(db, path);
    lemma_find(mid, path);
    lemma_unseen_before(found, n);
    assert(found.take(n + 1)[n] == file);
    assert(seen(found.take(n + 1), path));
    // an entry of `mid` that `db` lacks has the path of an earlier file
    assert forall|j: int| db.len() <= j < mid.len() implies (#[trigger] mid[j]).path != path by {
        assert(seen(found.take(n), mid[j].path));
    }
    // what is known of the entries outside `db` carries over where they stay
    assert forall|j: int| db.len() <= j < mid.len() implies seen(
        found.take(n + 1),
        (#[trigger] mid[j]).path,
    ) by {
        assert(seen(found.take(n), mid[j].path));
        lemma_seen_more(found, n, mid[j].path);
    }
    // an entry of `db` that the longer prefix has not seen, or that is deleted, is as it was
    assert forall|j: int|
        0 <= j < db.len() && (!seen(found.take(n + 1), db[j].path) || db[j].is_deleted())
        implies #[trigger] mid[j] == db[j] by {
        if seen(found.take(n), db[j].path) {
            lemma_seen_more(found, n, db[j].path);
        }
    }
    match standing(db, file) {
        Standing::New => {
            assert forall|j: int| 0 <= j < mid.len() implies (#[trigger] mid[j]).path != path by {
                if j < db.len() {
                    assert(mid[j].path == db[j].path);
                }
            }
            assert(find(mid, path) is None);
            let entry = FileView {
                path,
                file_contents: seq![file.version()],
                rating: crate::rating::Rating::prior(),
            };
            assert(next == mid.push(entry));
            assert(holds(next[mid.len() as int], file));
            assert forall|k: int| 0 <= k < n + 1 implies in_conflict(db, #[trigger] found[k])
                || exists|j: int| 0 <= j < next.len() && holds(next[j], found[k]) by {
                if k < n && !in_conflict(db, found[k]) {
                    let j = choose|j: int| 0 <= j < mid.len() && holds(mid[j], found[k]);
                    assert(holds(next[j], found[k]));
                }
            }
            assert forall|j: int|
                0 <= j < db.len() && (!seen(found.take(n + 1), db[j].path) || db[j].is_deleted())
                implies #[trigger] next[j] == db[j] by {
                assert(mid[j] == db[j]);
            }
            assert forall|j: int| db.len() <= j < next.len() implies seen(
                found.take(n + 1),
                (#[trigger] next[j]).path,
            ) by {
                if j < mid.len() {
                    assert(next[j] == mid[j]);
                }
            }
            assert(distinct_paths(next));
            assert(all_have_history(next));
            assert(extends(db, next));
        },
        Standing::Orphan => {
            assert(next == mid);
        },
        Standing::Unchanged => {
            let i = find(db, path).unwrap();
            assert(mid[i] == db[i]);
            assert(holds(mid[i], file));
        },
        Standing::Changed => {
            let i = find(db, path).unwrap();
            assert(mid[i].path == db[i].path);
            lemma_find_own(mid, i);
            assert(next == mid.update(i, mid[i].with_version(file.version())));
            assert(holds(next[i], file));
            assert forall|k: int| 0 <= k < n + 1 implies in_conflict(db, #[trigger] found[k])
                || exists|j: int| 0 <= j < next.len() && holds(next[j], found[k]) by {
                if k < n && !in_conflict(db, found[k]) {
                    let j = choose|j: int| 0 <= j < mid.len() && holds(mid[j], found[k]);
                    assert(j != i);
                    assert(holds(next[j], found[k]));
                }
            }
            assert forall|j: int|
                0 <= j < db.len() && (!seen(found.take(n + 1), db[j].path) || db[j].is_deleted())
                implies #[trigger] next[j] == db[j] by {
                assert(mid[j] == db[j]);
            }
            assert forall|j: int| db.len() <= j < next.len() implies seen(
                found.take(n + 1),
                (#[trigger] next[j]).path,
            ) by {
                assert(next[j] == mid[j]);
            }
            lemma_applied_extends(mid, ChangeView::Append { path, version: file.version() });
            crate::store::lemma_extends_chain(db, mid, next);
            assert forall|a: int, b: int| 0 <= a < b < next.len() implies (#[trigger] next[a]).path
                != (#[trigger] next[b]).path by {
                assert(mid[a].path != mid[b].path);
            }
            assert forall|j: int| 0 <= j < next.len() implies (#[trigger] next[j])
                .file_contents.len() > 0 by {
                assert(mid[j].file_contents.len() > 0);
            }
        },
    }
}

/// Once the changes that the first `n` files ask for are stored, those files
/// are settled.
proof fn lemma_files_settled(
    db: Seq<FileView>,
    found: Seq<FoundFileView>,
    n: int,
    delete: bool,
)
    requires
        distinct_paths(db),
        all_have_history(db),
        distinct_found(found),
        0 <= n <= found.len(),
    ensures
        files_settled(
            db,
            found,
            n,
            applied_all(db, found_changes(db, found.take(n), delete)),
        ),
    decreases n,
{
    if n == 0 {
        assert(found.take(0).len() == 0);
        assert forall|j: int| 0 <= j < db.len() implies db[j].file_contents.is_prefix_of(
            db[j].file_contents,
        ) by {}
    } else {
        lemma_files_settled(db, found, n - 1, delete);
        assert(found.take(n).drop_last() =~= found.take(n - 1));
        assert(found.take(n).last() == found[n - 1]);
        let before = found_changes(db, found.take(n - 1), delete);
        lemma_file_step(db, found, n - 1, applied_all(db, before), delete);
        match change_for(db, found[n - 1], delete) {
            Some(change) => {
                assert(before.push(change).drop_last() =~= before);
            },
            None => {},
        }
    }
}

/// How far the entries `0..m` of `db` have their tombstones in `cur`, where
/// `mid` is the store before any tombstone.
spec fn gone_settled(
    db: Seq<FileView>,
    found: Seq<FoundFileView>,
    m: int,
    mid: Seq<FileView>,
    cur: Seq<FileView>,
) -> bool {
    &&& cur.len() == mid.len()
    &&& all_have_history(cur)
    &&& forall|j: int| 0 <= j < cur.len() ==> (#[trigger] cur[j]).path == mid[j].path
    &&& forall|j: int|
        0 <= j < cur.len() ==> if j < m && db[j].is_live() && !seen(found, db[j].path) {
            (#[trigger] cur[j]).is_deleted()
        } else {
            cur[j] == mid[j]
        }
}

/// Once the tombstones for the first `m` entries are stored, those entries
/// are deleted where the snapshot lacks them, and nothing else has changed.
proof fn lemma_gone_settled(
    db: Seq<FileView>,
    found: Seq<FoundFileView>,
    m: int,
    mid: Seq<FileView>,
    now: i64,
)
    requires
        extends(db, mid),
        distinct_paths(mid),
        all_have_history(mid),
        0 <= m <= db.len(),
    ensures
        gone_settled(db, found, m, mid, applied_all(mid, tombstones(db.take(m), found, now))),
    decreases m,
{
    if m == 0 {
        assert(db.take(0).len() == 0);
    } else {
        lemma_gone_settled(db, found, m - 1, mid, now);
        assert(db.take(m).drop_last() =~= db.take(m - 1));
        assert(db.take(m).last() == db[m - 1]);
        let before = tombstones(db.take(m - 1), found, now);
        let cur = applied_all(mid, before);
        let entry = db[m - 1];
        if entry.is_live() && !seen(found, entry.path) {
            let change = ChangeView::Append {
                path: entry.path,
                version: FileContentView { content: None, at: now },
            };
            assert(before.push(change).drop_last() =~= before);
            let next = applied(cur, change);
            assert(mid[m - 1].path == entry.path);
            assert(cur[m - 1].path == entry.path);
            assert forall|a: int, b: int| 0 <= a < b < cur.len() implies (#[trigger] cur[a]).path
                != (#[trigger] cur[b]).path by {
                assert(mid[a].path != mid[b].path);
            }
            lemma_find_own(cur, m - 1);
            assert(next == cur.update(m - 1, cur[m - 1].with_version(change->Append_version)));
            assert(next[m - 1].is_deleted());
            assert forall|j: int| 0 <= j < next.len() implies (#[trigger] next[j])
                .file_contents.len() > 0 by {
                assert(cur[j].file_contents.len() > 0);
            }
            assert forall|j: int| 0 <= j < next.len() implies (#[trigger] next[j]).path
                == mid[j].path by {
                assert(cur[j].path == mid[j].path);
            }
            assert forall|j: int| 0 <= j < next.len() implies if j < m && db[j].is_live() && !seen(
                found,
                db[j].path,
            ) {
                (#[trigger] next[j]).is_deleted()
            } else {
                next[j] == mid[j]
            } by {
                if j != m - 1 {
                    assert(next[j] == cur[j]);
                }
            }
        } else {
            let next = cur;
            assert forall|j: int| 0 <= j < next.len() implies if j < m && db[j].is_live() && !seen(
                found,
                db[j].path,
            ) {
                (#[trigger] next[j]).is_deleted()
            } else {
                next[j] == mid[j]
            } by {}
        }
    }
}

/// No change stores a version: each is the removal of a file from disk.
pub open spec fn only_removals(changes: Seq<ChangeView>) -> bool {
    forall|i: int| 0 <= i < changes.len() ==> (#[trigger] changes[i]) is Remove
}

/// Where every file is an orphan or unchanged, the files ask for removals at
/// most; where every file is unchanged, for nothing.
proof fn lemma_nothing_for_files(db: Seq<FileView>, found: Seq<FoundFileView>, n: int, delete: bool)
    requires
        0 <= n <= found.len(),
        forall|k: int|
            0 <= k < found.len() ==> standing(db, #[trigger] found[k]) == Standing::Unchanged
                || standing(db, found[k]) == Standing::Orphan,
    ensures
        only_removals(found_changes(db, found.take(n), delete)),
        no_conflict(db, found) ==> found_changes(db, found.take(n), delete) == Seq::<
            ChangeView,
        >::empty(),
    decreases n,
{
    if n > 0 {
        lemma_nothing_for_files(db, found, n - 1, delete);
        assert(found.take(n).drop_last() =~= found.take(n - 1));
        assert(found.take(n).last() == found[n - 1]);
        assert(standing(db, found[n - 1]) == Standing::Unchanged || standing(db, found[n - 1])
            == Standing::Orphan);
        if no_conflict(db, found) {
            assert(!in_conflict(db, found[n - 1]));
        }
    }
}

/// Where every live entry is in the snapshot, no tombstone is due.
proof fn lemma_nothing_gone(db: Seq<FileView>, found: Seq<FoundFileView>, m: int, now: i64)
    requires
        0 <= m <= db.len(),
        forall|j: int|
            0 <= j < db.len() && (#[trigger] db[j]).is_live() ==> seen(found, db[j].path),
    ensures
        tombstones(db.take(m), found, now) == Seq::<ChangeView>::empty(),
    decreases m,
{
    if m > 0 {
        lemma_nothing_gone(db, found, m - 1, now);
        assert(db.take(m).drop_last() =~= db.take(m - 1));
        assert(db.take(m).last() == db[m - 1]);
    }
}

/// A pass brings the store into agreement with the snapshot, so a second pass
/// over the same snapshot stores nothing.
///
/// Take a store in order (distinct paths, every entry with a version) and a
/// snapshot with distinct paths. Store the changes of one pass. Then the store
/// is in order again and extends what it was; a file that sat at the
/// path of a deleted entry still does, and every other file is unchanged; and
/// a pass over the same snapshot, under either policy and at any later time,
/// plans no new entry, no new version and no tombstone. All that it can plan
/// is the removal of the files at deleted paths, and where there was no such
/// file it plans nothing at all.
pub proof fn lemma_second_pass_plans_nothing(
    db: Seq<FileView>,
    found: Seq<FoundFileView>,
    delete: bool,
    now: i64,
    delete_again: bool,
    later: i64,
)
    requires
        in_order(db),
        distinct_found(found),
    ensures
        ({
            let after = applied_all(db, plan(db, found, delete, now));
            &&& extends(db, after)
            &&& in_order(after)
            &&& forall|k: int|
                0 <= k < found.len() ==> standing(after, #[trigger] found[k]) == if in_conflict(
                    db,
                    found[k],
                ) {
                    Standing::Orphan
                } else {
                    Standing::Unchanged
                }
            &&& only_removals(plan(after, found, delete_again, later))
            &&& no_conflict(db, found) ==> plan(after, found, delete_again, later) == Seq::<
                ChangeView,
            >::empty()
        }),
{
    let for_files = found_changes(db, found, delete);
    let for_gone = tombstones(db, found, now);
    let mid = applied_all(db, for_files);
    let after = applied_all(db, plan(db, found, delete, now));
    let n = found.len() as int;
    assert(found.take(n) =~= found);
    assert(db.take(db.len() as int) =~= db);
    lemma_files_settled(db, found, n, delete);
    lemma_gone_settled(db, found, db.len() as int, mid, now);
    lemma_applied_all_concat(db, for_files, for_gone);
    assert(after == applied_all(mid, for_gone));
    assert forall|a: int, b: int| 0 <= a < b < after.len() implies (#[trigger] after[a]).path != (
    #[trigger] after[b]).path by {
        assert(mid[a].path != mid[b].path);
    }
    crate::store::lemma_applied_all_extends(db, plan(db, found, delete, now));
    assert forall|k: int| 0 <= k < found.len() implies standing(after, #[trigger] found[k])
        == if in_conflict(db, found[k]) {
        Standing::Orphan
    } else {
        Standing::Unchanged
    } by {
        assert(found.take(n)[k] == found[k]);
        if in_conflict(db, found[k]) {
            // the deleted entry is where it was, as it was
            lemma_find(db, found[k].path);
            let i = find(db, found[k].path).unwrap();
            assert(mid[i] == db[i]);
            assert(after[i].path == mid[i].path);
            assert(after[i] == mid[i]);
            lemma_find_own(after, i);
        } else {
            // the file has its entry, with its bytes
            let j = choose|j: int| 0 <= j < mid.len() && holds(mid[j], found[k]);
            if j < db.len() {
                assert(mid[j].path == db[j].path);
                assert(seen(found, db[j].path));
            }
            assert(after[j] == mid[j]);
            lemma_find_own(after, j);
        }
    }
    // every live entry has its file
    assert forall|j: int| 0 <= j < after.len() && (#[trigger] after[j]).is_live() implies seen(
        found,
        after[j].path,
    ) by {
        if j < db.len() {
            assert(mid[j].path == db[j].path);
            if !seen(found, db[j].path) {
                assert(mid[j] == db[j]);
            }
        } else {
            assert(seen(found.take(n), mid[j].path));
        }
    }
    lemma_nothing_for_files(after, found, n, delete_again);
    lemma_nothing_gone(after, found, after.len() as int, later);
    assert(after.take(after.len() as int) =~= after);
    assert(plan(after, found, delete_again, later) =~= found_changes(after, found, delete_again));
    if no_conflict(db, found) {
        assert forall|k: int| 0 <= k < found.len() implies !in_conflict(
            after,
            #[trigger] found[k],
        ) by {
            assert(!in_conflict(db, found[k]));
        }
    }
}

/// A pass that was cut short is mended by the next one.
///
/// Take a store in order and a snapshot with distinct paths, and store only
/// the first `done` changes of a pass. What was stored before is still there,
/// the store is still in order, and a full pass over the same snapshot brings
/// it to where a second pass stores nothing.
pub proof fn lemma_interrupted_pass_is_mended(
    db: Seq<FileView>,
    found: Seq<FoundFileView>,
    delete: bool,
    now: i64,
    done: int,
    delete_again: bool,
    later: i64,
    delete_last: bool,
    last: i64,
)
    requires
        in_order(db),
        distinct_found(found),
        0 <= done <= plan(db, found, delete, now).len(),
    ensures
        ({
            let cut = applied_all(db, plan(db, found, delete, now).take(done));
            let mended = applied_all(cut, plan(cut, found, delete_again, later));
            &&& extends(db, cut)
            &&& in_order(cut)
            &&& extends(cut, mended)
            &&& in_order(mended)
            &&& only_removals(plan(mended, found, delete_last, last))
        }),
{
    let cut = applied_all(db, plan(db, found, delete, now).take(done));
    crate::store::lemma_applied_all_extends(db, plan(db, found, delete, now).take(done));
    crate::store::lemma_applied_all_keeps_order(db, plan(db, found, delete, now).take(done));
    lemma_second_pass_plans_nothing(cut, found, delete_again, later, delete_last, last);
}

/// Two passes in a row over the same snapshot: the second one stores nothing.
///
/// `first` is what [`update_files`] returned for a store with distinct paths
/// and a snapshot with distinct paths; `stored` holds the store once the
/// changes of `first` are applied. Then whatever [`update_files`] returns for
/// `stored` and the same snapshot adds no entry and no version. It is a plan
/// that holds removals from disk at most, and none where no file sat at the
/// path of a deleted entry; or it is the refusal of such a file.
pub proof fn lemma_update_files_twice(
    db_files: Vec<File>,
    found: Vec<FoundFile>,
    delete: bool,
    now: i64,
    first: Result<Vec<Change>, Error>,
    stored: Vec<File>,
    delete_again: bool,
    later: i64,
    second: Result<Vec<Change>, Error>,
)
    requires
        distinct_paths(db_files.deep_view()),
        distinct_found(found.deep_view()),
        call_ensures(update_files, (&db_files, &found, delete, now), first),
        first matches Ok(changes) && stored.deep_view() == applied_all(
            db_files.deep_view(),
            changes.deep_view(),
        ),
        call_ensures(update_files, (&stored, &found, delete_again, later), second),
    ensures
        match second {
            Ok(changes) => {
                &&& only_removals(changes.deep_view())
                &&& no_conflict(db_files.deep_view(), found.deep_view()) ==> changes.len() == 0
            },
            Err(Error::Conflict { index }) => !delete_again && !no_conflict(
                db_files.deep_view(),
                found.deep_view(),
            ),
            Err(_) => false,
        },
{
    let db = db_files.deep_view();
    let snapshot = found.deep_view();
    lemma_second_pass_plans_nothing(db, snapshot, delete, now, delete_again, later);
    let after = stored.deep_view();
    match second {
        Ok(changes) => {
            if no_conflict(db, snapshot) {
                assert(changes.deep_view().len() == 0);
            }
        },
        Err(Error::EmptyHistory { index }) => {
            assert(after[index as int].file_contents.len() > 0);
        },
        Err(Error::Conflict { index }) => {
            assert(in_conflict(after, snapshot[index as int]));
            assert(in_conflict(db, snapshot[index as int]));
        },
        Err(_) => {},
    }
}

} // verus!
