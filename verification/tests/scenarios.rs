use entry_rank::entry::{File, Vote};
use entry_rank::listing::{get_file_with_index, show};
use entry_rank::ranking::get_db_files;
use entry_rank::reconcile::{update_files, FoundFile};
use entry_rank::record::record;
use entry_rank::store::apply;

fn found(path: &str, modified: i64, bytes: &[u8]) -> FoundFile {
    FoundFile { path: path.to_string(), modified, bytes: bytes.to_vec() }
}

fn pass(db: &mut Vec<File>, snapshot: &Vec<FoundFile>, now: i64) -> usize {
    let changes = update_files(db, snapshot, false, now).unwrap();
    let count = changes.len();
    for change in changes {
        apply(db, change).unwrap();
    }
    count
}

fn position(listing: &[File], path: &str) -> Option<usize> {
    listing.iter().position(|f| f.path == path)
}

#[test]
fn two_files_one_win_then_one_deleted() {
    let mut db: Vec<File> = Vec::new();
    let mut log: Vec<Vote> = Vec::new();

    let both = vec![found("a.txt", 100, b"first entry\n"), found("b.txt", 101, b"second entry\n")];
    assert_eq!(pass(&mut db, &both, 1000), 2);
    assert_eq!(db.len(), 2);
    assert_eq!(db[0].path, "a.txt");
    assert_eq!(db[1].path, "b.txt");
    assert_eq!(db[0].file_contents.len(), 1);
    assert_eq!(db[1].file_contents.len(), 1);

    record(&mut log, &"a.txt".to_string(), &"b.txt".to_string(), 1001).unwrap();
    let listing = get_db_files(&db, &log, false).unwrap();
    let a_at = position(&listing, "a.txt").unwrap();
    let b_at = position(&listing, "b.txt").unwrap();
    assert!(a_at > b_at);
    assert!(listing[a_at].rating.points() > listing[b_at].rating.points());
    assert_eq!(get_file_with_index(&listing, 1).unwrap().path, "a.txt");
    assert_eq!(get_file_with_index(&listing, 2).unwrap().path, "b.txt");

    let only_a = vec![found("a.txt", 100, b"first entry\n")];
    assert_eq!(pass(&mut db, &only_a, 2000), 1);
    assert_eq!(db[1].file_contents.len(), 2);
    assert_eq!(db[1].file_contents[1].content, None);
    assert_eq!(db[1].file_contents[1].at, 2000);
    assert!(db[1].is_deleted());
    assert!(db[0].is_live());

    let without = get_db_files(&db, &log, false).unwrap();
    assert_eq!(without.len(), 1);
    assert_eq!(without[0].path, "a.txt");
    assert_eq!(position(&without, "b.txt"), None);

    let with = get_db_files(&db, &log, true).unwrap();
    assert_eq!(with.len(), 2);
    let b = &with[position(&with, "b.txt").unwrap()];
    assert!(b.is_deleted());
    assert_eq!(b.label(), Some("b.txt (deleted)".to_string()));
    assert_eq!(
        show(&with).unwrap(),
        vec![
            "2. first entry (a.txt) (score: 1500, deviation: 350)",
            "1. b.txt (deleted) (score: 1500, deviation: 350)",
        ]
    );
}

#[test]
fn content_changed_between_two_passes() {
    let mut db: Vec<File> = Vec::new();
    assert_eq!(pass(&mut db, &vec![found("a.txt", 100, b"draft")], 1000), 1);
    assert_eq!(db[0].file_contents.len(), 1);

    assert_eq!(pass(&mut db, &vec![found("a.txt", 150, b"final text")], 2000), 1);
    assert_eq!(db.len(), 1);
    assert_eq!(db[0].file_contents.len(), 2);
    assert_eq!(db[0].file_contents[0].content, Some(b"draft".to_vec()));
    assert_eq!(db[0].file_contents[0].at, 100);
    assert_eq!(db[0].file_contents[1].content, Some(b"final text".to_vec()));
    assert_eq!(db[0].file_contents[1].at, 150);

    assert_eq!(pass(&mut db, &vec![found("a.txt", 150, b"final text")], 3000), 0);
    assert_eq!(db[0].file_contents.len(), 2);
}

#[test]
fn a_deleted_path_is_never_brought_back() {
    let mut db: Vec<File> = Vec::new();
    pass(&mut db, &vec![found("a.txt", 1, b"x")], 10);
    pass(&mut db, &Vec::new(), 20);
    assert!(db[0].is_deleted());
    let back = vec![found("a.txt", 30, b"x again")];
    assert!(update_files(&db, &back, false, 40).is_err());
    let changes = update_files(&db, &back, true, 40).unwrap();
    for change in changes {
        apply(&mut db, change).unwrap();
    }
    assert_eq!(db[0].file_contents.len(), 2);
    assert!(db[0].is_deleted());
}
