use entry_rank::entry::{File, FileContent, Vote};
use entry_rank::error::Error;
use entry_rank::ranking::get_db_files;
use entry_rank::rating::{Outcome, Rating};
use skillratings::glicko2::{glicko2, Glicko2Config, Glicko2Rating};
use skillratings::Outcomes;

fn live(path: &str) -> File {
    File::new(path.to_string(), vec![FileContent::new(path.as_bytes().to_vec(), 1)])
}

fn deleted(path: &str) -> File {
    File::new(
        path.to_string(),
        vec![FileContent::new(path.as_bytes().to_vec(), 1), FileContent::tombstone(2)],
    )
}

fn vote(left: &str, right: &str, vote: i64, at: i64) -> Vote {
    Vote { left_path: left.to_string(), right_path: right.to_string(), vote, at }
}

fn summary(files: &[File]) -> Vec<(String, i64, i64)> {
    files.iter().map(|f| (f.path.clone(), f.rating.points(), f.rating.spread())).collect()
}

fn whole(rating: &Glicko2Rating) -> (i64, i64) {
    (rating.rating as i64, rating.deviation as i64)
}

#[test]
fn without_votes_everyone_has_the_prior_and_ranks_by_path() {
    let db = vec![live("b.txt"), live("c.txt"), live("a.txt")];
    let ranked = get_db_files(&db, &Vec::new(), false).unwrap();
    assert_eq!(
        summary(&ranked),
        vec![
            ("a.txt".to_string(), 1500, 350),
            ("b.txt".to_string(), 1500, 350),
            ("c.txt".to_string(), 1500, 350),
        ]
    );
}

#[test]
fn prior_is_neutral_skill_and_maximal_uncertainty() {
    let prior = Rating::new();
    assert_eq!(prior.points(), 1500);
    assert_eq!(prior.spread(), 350);
}

#[test]
fn one_win_follows_the_update_rule() {
    let db = vec![live("a.txt"), live("b.txt")];
    let log = vec![vote("a.txt", "b.txt", 1, 10)];
    let ranked = get_db_files(&db, &log, false).unwrap();
    let start = Glicko2Rating::new();
    let (won, lost) = glicko2(&start, &start, &Outcomes::WIN, &Glicko2Config::new());
    assert_eq!(
        summary(&ranked),
        vec![
            ("b.txt".to_string(), whole(&lost).0, whole(&lost).1),
            ("a.txt".to_string(), whole(&won).0, whole(&won).1),
        ]
    );
    assert_eq!(ranked[1].rating.points(), 1662);
    assert_eq!(ranked[1].rating.spread(), 290);
    assert_eq!(ranked[0].rating.points(), 1337);
    assert_eq!(ranked[0].rating.spread(), 290);
}

#[test]
fn compare_rates_both_sides() {
    let start = Rating::new();
    let (left, right) = start.compare(&start, Outcome::Loss);
    let prior = Glicko2Rating::new();
    let (one, two) = glicko2(&prior, &prior, &Outcomes::LOSS, &Glicko2Config::new());
    assert_eq!((left.points(), left.spread()), whole(&one));
    assert_eq!((right.points(), right.spread()), whole(&two));
    assert!(left.points() < 1500);
    assert!(right.points() > 1500);
    let (again_left, again_right) = left.compare(&right, Outcome::Draw);
    let (three, four) = glicko2(&one, &two, &Outcomes::DRAW, &Glicko2Config::new());
    assert_eq!((again_left.points(), again_left.spread()), whole(&three));
    assert_eq!((again_right.points(), again_right.spread()), whole(&four));
}

#[test]
fn magnitude_decides_the_outcome() {
    assert_eq!(Outcome::from_vote(1), Outcome::Win);
    assert_eq!(Outcome::from_vote(17), Outcome::Win);
    assert_eq!(Outcome::from_vote(i64::MAX), Outcome::Win);
    assert_eq!(Outcome::from_vote(0), Outcome::Draw);
    assert_eq!(Outcome::from_vote(-1), Outcome::Loss);
    assert_eq!(Outcome::from_vote(i64::MIN), Outcome::Loss);
}

#[test]
fn negative_magnitude_is_a_loss_of_the_left_side() {
    let db = vec![live("a.txt"), live("b.txt")];
    let ranked = get_db_files(&db, &vec![vote("a.txt", "b.txt", -3, 10)], false).unwrap();
    assert_eq!(ranked[0].path, "a.txt");
    assert_eq!(ranked[1].path, "b.txt");
    assert!(ranked[0].rating.points() < 1500);
    assert!(ranked[1].rating.points() > 1500);
}

#[test]
fn zero_magnitude_is_a_draw() {
    let db = vec![live("a.txt"), live("b.txt")];
    let ranked = get_db_files(&db, &vec![vote("a.txt", "b.txt", 0, 10)], false).unwrap();
    let start = Glicko2Rating::new();
    let (one, two) = glicko2(&start, &start, &Outcomes::DRAW, &Glicko2Config::new());
    assert_eq!(
        summary(&ranked),
        vec![
            ("a.txt".to_string(), whole(&one).0, whole(&one).1),
            ("b.txt".to_string(), whole(&two).0, whole(&two).1),
        ]
    );
}

#[test]
fn votes_are_replayed_oldest_first_whatever_the_log_order() {
    let db = vec![live("a.txt"), live("b.txt"), live("c.txt")];
    let in_order = vec![
        vote("a.txt", "b.txt", 1, 10),
        vote("b.txt", "c.txt", 1, 20),
        vote("c.txt", "a.txt", 1, 30),
    ];
    let shuffled = vec![
        vote("c.txt", "a.txt", 1, 30),
        vote("a.txt", "b.txt", 1, 10),
        vote("b.txt", "c.txt", 1, 20),
    ];
    let first = get_db_files(&db, &in_order, false).unwrap();
    let second = get_db_files(&db, &shuffled, false).unwrap();
    assert_eq!(summary(&first), summary(&second));

    let prior = Glicko2Rating::new();
    let config = Glicko2Config::new();
    let (a, b) = glicko2(&prior, &prior, &Outcomes::WIN, &config);
    let (b, c) = glicko2(&b, &prior, &Outcomes::WIN, &config);
    let (c, a) = glicko2(&c, &a, &Outcomes::WIN, &config);
    let mut expected = vec![
        ("a.txt".to_string(), whole(&a).0, whole(&a).1),
        ("b.txt".to_string(), whole(&b).0, whole(&b).1),
        ("c.txt".to_string(), whole(&c).0, whole(&c).1),
    ];
    expected.sort_by_key(|e| (e.1, e.0.clone()));
    assert_eq!(summary(&first), expected);
}

#[test]
fn votes_of_one_timestamp_keep_log_order() {
    let db = vec![live("a.txt"), live("b.txt"), live("c.txt")];
    let log = vec![
        vote("a.txt", "b.txt", 1, 5),
        vote("b.txt", "c.txt", 1, 5),
        vote("c.txt", "a.txt", 1, 5),
        vote("a.txt", "c.txt", 1, 1),
    ];
    let ranked = get_db_files(&db, &log, true).unwrap();
    let prior = Glicko2Rating::new();
    let config = Glicko2Config::new();
    let (a, c) = glicko2(&prior, &prior, &Outcomes::WIN, &config);
    let (a, b) = glicko2(&a, &prior, &Outcomes::WIN, &config);
    let (b, c) = glicko2(&b, &c, &Outcomes::WIN, &config);
    let (c, a) = glicko2(&c, &a, &Outcomes::WIN, &config);
    let mut expected = vec![
        ("a.txt".to_string(), whole(&a).0, whole(&a).1),
        ("b.txt".to_string(), whole(&b).0, whole(&b).1),
        ("c.txt".to_string(), whole(&c).0, whole(&c).1),
    ];
    expected.sort_by_key(|e| (e.1, e.0.clone()));
    assert_eq!(summary(&ranked), expected);
}

#[test]
fn ratings_carried_by_the_input_are_not_read() {
    let db = vec![live("a.txt"), live("b.txt")];
    let log = vec![vote("a.txt", "b.txt", 1, 10)];
    let once = get_db_files(&db, &log, false).unwrap();
    let again = get_db_files(&once, &log, false).unwrap();
    assert_eq!(summary(&once), summary(&again));
}

#[test]
fn same_input_gives_the_same_listing() {
    let db = vec![live("x.txt"), live("y.txt"), deleted("z.txt"), live("w.txt")];
    let log = vec![
        vote("x.txt", "y.txt", 1, 3),
        vote("w.txt", "x.txt", 0, 2),
        vote("y.txt", "w.txt", -1, 2),
        vote("z.txt", "w.txt", 1, 1),
    ];
    let first = get_db_files(&db, &log, true).unwrap();
    let second = get_db_files(&db.clone(), &log.clone(), true).unwrap();
    assert_eq!(summary(&first), summary(&second));
    assert_eq!(first.len(), 4);
}

#[test]
fn vote_with_a_deleted_side_changes_nothing() {
    let db = vec![live("a.txt"), live("b.txt"), deleted("gone.txt")];
    let base = vec![vote("a.txt", "b.txt", 1, 10)];
    let expected = summary(&get_db_files(&db, &base, true).unwrap());
    for extra in [
        vote("gone.txt", "a.txt", 1, 5),
        vote("b.txt", "gone.txt", 1, 15),
        vote("gone.txt", "gone.txt", 1, 7),
        vote("nowhere.txt", "a.txt", 1, 7),
    ] {
        for place in 0..=base.len() {
            let mut log = base.clone();
            log.insert(place, extra.clone());
            assert_eq!(summary(&get_db_files(&db, &log, true).unwrap()), expected);
        }
    }
}

#[test]
fn deleted_entries_are_listed_only_on_request() {
    let db = vec![live("a.txt"), deleted("gone.txt"), live("b.txt")];
    let without = get_db_files(&db, &Vec::new(), false).unwrap();
    assert_eq!(without.iter().map(|f| f.path.as_str()).collect::<Vec<_>>(), vec!["a.txt", "b.txt"]);
    let with = get_db_files(&db, &Vec::new(), true).unwrap();
    assert_eq!(
        with.iter().map(|f| (f.path.as_str(), f.is_deleted())).collect::<Vec<_>>(),
        vec![("a.txt", false), ("b.txt", false), ("gone.txt", true)]
    );
}

#[test]
fn listing_keeps_the_history_of_each_entry() {
    let db = vec![File::new(
        "a.txt".to_string(),
        vec![FileContent::new(b"one".to_vec(), 1), FileContent::new(b"two".to_vec(), 2)],
    )];
    let ranked = get_db_files(&db, &Vec::new(), false).unwrap();
    assert_eq!(ranked.len(), 1);
    assert_eq!(ranked[0].file_contents.len(), 2);
    assert_eq!(ranked[0].file_contents[0].content, Some(b"one".to_vec()));
    assert_eq!(ranked[0].file_contents[1].content, Some(b"two".to_vec()));
    assert_eq!(ranked[0].file_contents[1].at, 2);
}

#[test]
fn ranking_refuses_an_entry_without_history() {
    let db = vec![File::new("empty.txt".to_string(), Vec::new()), live("a.txt")];
    assert_eq!(get_db_files(&db, &Vec::new(), true).unwrap_err(), Error::EmptyHistory { index: 0 });
}

#[test]
fn nothing_to_rank_is_an_empty_success() {
    let ranked = get_db_files(&Vec::new(), &vec![vote("a", "b", 1, 1)], false).unwrap();
    assert!(ranked.is_empty());
}

#[test]
fn equal_points_rank_by_path_bytes() {
    let db = vec![live("b"), live("B"), live("a/z"), live("a"), live("é"), live("ab")];
    let ranked = get_db_files(&db, &Vec::new(), false).unwrap();
    let mut expected: Vec<String> = db.iter().map(|f| f.path.clone()).collect();
    expected.sort();
    assert_eq!(ranked.iter().map(|f| f.path.clone()).collect::<Vec<_>>(), expected);
}
