use entry_rank::entry::{File, FileContent};
use entry_rank::error::Error;
use entry_rank::reconcile::{
    classify, is_seen, same_bytes, update_files, Change, FoundFile, Standing,
};
use entry_rank::store::apply;

fn found(path: &str, modified: i64, bytes: &[u8]) -> FoundFile {
    FoundFile { path: path.to_string(), modified, bytes: bytes.to_vec() }
}

fn live(path: &str, at: i64, bytes: &[u8]) -> File {
    File::new(path.to_string(), vec![FileContent::new(bytes.to_vec(), at)])
}

fn deleted(path: &str, at: i64, bytes: &[u8]) -> File {
    File::new(
        path.to_string(),
        vec![FileContent::new(bytes.to_vec(), at), FileContent::tombstone(at + 1)],
    )
}

fn apply_all(db: &mut Vec<File>, changes: Vec<Change>) {
    for change in changes {
        assert_eq!(apply(db, change), Ok(()));
    }
}

fn versions(db: &[File], path: &str) -> usize {
    db.iter().find(|f| f.path == path).map(|f| f.file_contents.len()).unwrap_or(0)
}

#[test]
fn new_files_become_entries_with_one_version() {
    let db: Vec<File> = Vec::new();
    let snapshot = vec![found("a.txt", 10, b"alpha"), found("b.txt", 20, b"beta")];
    let changes = update_files(&db, &snapshot, false, 99).unwrap();
    assert_eq!(changes.len(), 2);
    match &changes[0] {
        Change::Create { path, version } => {
            assert_eq!(path, "a.txt");
            assert_eq!(version.content, Some(b"alpha".to_vec()));
            assert_eq!(version.at, 10);
        }
        other => panic!("unexpected change {:?}", other),
    }
    match &changes[1] {
        Change::Create { path, version } => {
            assert_eq!(path, "b.txt");
            assert_eq!(version.content, Some(b"beta".to_vec()));
            assert_eq!(version.at, 20);
        }
        other => panic!("unexpected change {:?}", other),
    }
}

#[test]
fn changed_bytes_append_exactly_one_version() {
    let db = vec![live("a.txt", 10, b"old")];
    let snapshot = vec![found("a.txt", 30, b"new bytes")];
    let changes = update_files(&db, &snapshot, false, 99).unwrap();
    assert_eq!(changes.len(), 1);
    match &changes[0] {
        Change::Append { path, version } => {
            assert_eq!(path, "a.txt");
            assert_eq!(version.content, Some(b"new bytes".to_vec()));
            assert_eq!(version.at, 30);
        }
        other => panic!("unexpected change {:?}", other),
    }
    let mut stored = db.clone();
    apply_all(&mut stored, changes);
    assert_eq!(stored.len(), 1);
    assert_eq!(stored[0].file_contents.len(), 2);
    assert_eq!(stored[0].file_contents[0].content, Some(b"old".to_vec()));
    assert_eq!(stored[0].file_contents[1].content, Some(b"new bytes".to_vec()));
}

#[test]
fn identical_bytes_are_no_change_even_if_the_time_moved() {
    let db = vec![live("a.txt", 10, b"same")];
    let snapshot = vec![found("a.txt", 5000, b"same")];
    let changes = update_files(&db, &snapshot, false, 99).unwrap();
    assert!(changes.is_empty());
}

#[test]
fn missing_file_gets_a_tombstone_timestamped_now() {
    let db = vec![live("a.txt", 10, b"alpha"), live("b.txt", 20, b"beta")];
    let snapshot = vec![found("a.txt", 10, b"alpha")];
    let changes = update_files(&db, &snapshot, false, 777).unwrap();
    assert_eq!(changes.len(), 1);
    match &changes[0] {
        Change::Append { path, version } => {
            assert_eq!(path, "b.txt");
            assert_eq!(version.content, None);
            assert_eq!(version.at, 777);
        }
        other => panic!("unexpected change {:?}", other),
    }
}

#[test]
fn deleted_entry_without_file_stays_as_it_is() {
    let db = vec![deleted("gone.txt", 10, b"x")];
    let snapshot: Vec<FoundFile> = Vec::new();
    let changes = update_files(&db, &snapshot, false, 50).unwrap();
    assert!(changes.is_empty());
}

#[test]
fn file_at_a_deleted_path_is_a_conflict() {
    let db = vec![live("a.txt", 1, b"a"), deleted("gone.txt", 10, b"x")];
    let snapshot = vec![found("a.txt", 2, b"changed"), found("gone.txt", 40, b"back")];
    assert_eq!(update_files(&db, &snapshot, false, 50).unwrap_err(), Error::Conflict { index: 1 });
}

#[test]
fn conflict_is_resolved_by_removal_where_asked() {
    let db = vec![deleted("gone.txt", 10, b"x")];
    let snapshot = vec![found("gone.txt", 40, b"back")];
    let changes = update_files(&db, &snapshot, true, 50).unwrap();
    assert_eq!(changes.len(), 1);
    match &changes[0] {
        Change::Remove { path } => assert_eq!(path, "gone.txt"),
        other => panic!("unexpected change {:?}", other),
    }
    let mut stored = db.clone();
    apply_all(&mut stored, changes);
    assert_eq!(stored.len(), 1);
    assert_eq!(stored[0].file_contents.len(), 2);
    assert!(stored[0].is_deleted());
}

#[test]
fn entry_without_history_is_refused() {
    let db = vec![live("a.txt", 1, b"a"), File::new("empty.txt".to_string(), Vec::new())];
    let snapshot = vec![found("a.txt", 1, b"a")];
    assert_eq!(
        update_files(&db, &snapshot, false, 50).unwrap_err(),
        Error::EmptyHistory { index: 1 }
    );
    assert_eq!(
        update_files(&db, &snapshot, true, 50).unwrap_err(),
        Error::EmptyHistory { index: 1 }
    );
}

#[test]
fn changes_come_in_snapshot_order_then_tombstones_in_store_order() {
    let db = vec![
        live("z.txt", 1, b"z"),
        live("m.txt", 1, b"m"),
        live("a.txt", 1, b"a"),
    ];
    let snapshot =
        vec![found("new2.txt", 5, b"2"), found("m.txt", 6, b"M"), found("new1.txt", 7, b"1")];
    let changes = update_files(&db, &snapshot, false, 9).unwrap();
    let shape: Vec<String> = changes
        .iter()
        .map(|c| match c {
            Change::Create { path, .. } => format!("create {}", path),
            Change::Append { path, version } => {
                if version.content.is_some() {
                    format!("append {}", path)
                } else {
                    format!("tombstone {}", path)
                }
            }
            Change::Remove { path } => format!("remove {}", path),
        })
        .collect();
    assert_eq!(
        shape,
        vec![
            "create new2.txt",
            "append m.txt",
            "create new1.txt",
            "tombstone z.txt",
            "tombstone a.txt",
        ]
    );
}

#[test]
fn second_pass_over_the_same_snapshot_plans_nothing() {
    let mut db = vec![
        live("kept.txt", 1, b"kept"),
        live("edited.txt", 1, b"before"),
        live("lost.txt", 1, b"lost"),
        deleted("old.txt", 1, b"old"),
    ];
    let snapshot = vec![
        found("kept.txt", 3, b"kept"),
        found("edited.txt", 4, b"after"),
        found("fresh.txt", 5, b"fresh"),
    ];
    let first = update_files(&db, &snapshot, false, 100).unwrap();
    assert_eq!(first.len(), 3);
    apply_all(&mut db, first);
    let second = update_files(&db, &snapshot, false, 200).unwrap();
    assert!(second.is_empty());
    let third = update_files(&db, &snapshot, true, 300).unwrap();
    assert!(third.is_empty());
}

#[test]
fn history_only_grows_across_passes() {
    let mut db = vec![live("a.txt", 1, b"one")];
    let before = db.clone();
    let passes: Vec<Vec<FoundFile>> = vec![
        vec![found("a.txt", 2, b"two"), found("b.txt", 2, b"b")],
        vec![found("a.txt", 3, b"two")],
        vec![],
    ];
    let mut counts = vec![(versions(&db, "a.txt"), versions(&db, "b.txt"))];
    for (round, snapshot) in passes.iter().enumerate() {
        let changes = update_files(&db, snapshot, false, 10 + round as i64).unwrap();
        apply_all(&mut db, changes);
        counts.push((versions(&db, "a.txt"), versions(&db, "b.txt")));
    }
    assert_eq!(counts, vec![(1, 0), (2, 1), (2, 2), (3, 2)]);
    assert_eq!(db[0].path, before[0].path);
    assert_eq!(db[0].file_contents[0].content, before[0].file_contents[0].content);
    assert_eq!(db[0].file_contents[0].at, before[0].file_contents[0].at);
    assert_eq!(db[0].file_contents[1].content, Some(b"two".to_vec()));
    assert_eq!(db[0].file_contents[2].content, None);
    assert_eq!(db[1].file_contents[1].content, None);
}

#[test]
fn store_refuses_a_second_entry_under_a_known_path() {
    let mut db = vec![live("a.txt", 1, b"one")];
    let change = Change::Create {
        path: "a.txt".to_string(),
        version: FileContent::new(b"x".to_vec(), 2),
    };
    assert_eq!(apply(&mut db, change), Err(Error::KnownPath));
    assert_eq!(db.len(), 1);
    assert_eq!(db[0].file_contents.len(), 1);
}

#[test]
fn store_refuses_a_version_for_an_unknown_path() {
    let mut db = vec![live("a.txt", 1, b"one")];
    let change = Change::Append { path: "b.txt".to_string(), version: FileContent::tombstone(2) };
    assert_eq!(apply(&mut db, change), Err(Error::UnknownPath));
    assert_eq!(db.len(), 1);
    assert_eq!(db[0].file_contents.len(), 1);
}

#[test]
fn store_ignores_a_removal_from_disk() {
    let mut db = vec![live("a.txt", 1, b"one")];
    assert_eq!(apply(&mut db, Change::Remove { path: "a.txt".to_string() }), Ok(()));
    assert_eq!(db.len(), 1);
    assert_eq!(db[0].file_contents.len(), 1);
}

#[test]
fn classify_tells_the_four_standings_apart() {
    let db = vec![live("a.txt", 1, b"a"), deleted("gone.txt", 1, b"g")];
    assert_eq!(classify(&db, &found("new.txt", 1, b"n")), Standing::New);
    assert_eq!(classify(&db, &found("gone.txt", 1, b"g")), Standing::Orphan);
    assert_eq!(classify(&db, &found("a.txt", 9, b"a")), Standing::Unchanged);
    assert_eq!(classify(&db, &found("a.txt", 1, b"A")), Standing::Changed);
}

#[test]
fn paths_are_case_sensitive_keys() {
    let db = vec![live("a.txt", 1, b"a")];
    assert_eq!(classify(&db, &found("A.txt", 1, b"a")), Standing::New);
}

#[test]
fn same_bytes_compares_contents() {
    assert!(same_bytes(&vec![], &vec![]));
    assert!(same_bytes(&vec![1, 2, 3], &vec![1, 2, 3]));
    assert!(!same_bytes(&vec![1, 2, 3], &vec![1, 2]));
    assert!(!same_bytes(&vec![1, 2, 3], &vec![1, 2, 4]));
}

#[test]
fn is_seen_looks_for_the_path() {
    let snapshot = vec![found("a.txt", 1, b"a"), found("b.txt", 1, b"b")];
    assert!(is_seen(&snapshot, &"b.txt".to_string()));
    assert!(!is_seen(&snapshot, &"c.txt".to_string()));
}

#[test]
fn second_pass_stores_nothing_even_where_an_orphan_stays_on_disk() {
    let mut db = vec![live("kept.txt", 1, b"kept"), deleted("old.txt", 1, b"old")];
    let snapshot = vec![
        found("old.txt", 9, b"back again"),
        found("kept.txt", 3, b"edited"),
        found("fresh.txt", 5, b"fresh"),
    ];
    let first = update_files(&db, &snapshot, true, 100).unwrap();
    assert_eq!(first.len(), 3);
    apply_all(&mut db, first);
    let counts: Vec<usize> = db.iter().map(|f| f.file_contents.len()).collect();

    let second = update_files(&db, &snapshot, true, 200).unwrap();
    assert_eq!(second.len(), 1);
    assert!(matches!(&second[0], Change::Remove { path } if path == "old.txt"));
    apply_all(&mut db, second);
    assert_eq!(db.iter().map(|f| f.file_contents.len()).collect::<Vec<_>>(), counts);

    assert_eq!(update_files(&db, &snapshot, false, 300).unwrap_err(), Error::Conflict { index: 0 });
}
