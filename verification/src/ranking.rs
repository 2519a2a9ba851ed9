//! Ratings from the comparison log, and the ranked listing.
//!
//! Nothing here is stored. Every entry starts from the prior, the comparisons
//! between live entries are replayed oldest first, and the listing follows
//! from the ratings that result.

use crate::entry::{File, FileView, Vote, VoteView};
use crate::error::Error;
use crate::lookup::{
    all_have_history, find, find_file, first_without_history, is_deleted_path, is_live_at,
    is_live_path, lemma_find, lemma_find_same_paths, same_paths,
};
use crate::order::{
    insert_by, is_sorted, is_total, is_transitive, lemma_lex_le_total,
    lemma_lex_le_transitive, lemma_stable_sort_is_sorted, lemma_stable_sort_is_stable,
    lemma_stable_sort_permutes, path_at_or_before, path_le, ranks_with, stable_sort,
};
use crate::rating::{rated, whole_points, Outcome, Rating};
use vstd::prelude::*;

verus! {

/// The order of the log: by timestamp.
pub open spec fn by_time() -> spec_fn(VoteView, VoteView) -> bool {
    |a: VoteView, b: VoteView| a.at <= b.at
}

/// The order of the listing: by whole rating points, then by path.
pub open spec fn by_rank() -> spec_fn(FileView, FileView) -> bool {
    |a: FileView, b: FileView|
        whole_points(a.rating) < whole_points(b.rating) || (whole_points(a.rating) == whole_points(
            b.rating,
        ) && path_le(a.path, b.path))
}

/// A comparison counts when both of its sides are live.
pub open spec fn eligible(db: Seq<FileView>, vote: VoteView) -> bool {
    is_live_path(db, vote.left_path) && is_live_path(db, vote.right_path)
}

/// The comparisons that count, in log order.
pub open spec fn eligible_votes(db: Seq<FileView>, votes: Seq<VoteView>) -> Seq<VoteView>
    decreases votes.len(),
{
    if votes.len() == 0 {
        Seq::empty()
    } else {
        let before = eligible_votes(db, votes.drop_last());
        if eligible(db, votes.last()) {
            before.push(votes.last())
        } else {
            before
        }
    }
}

/// The ratings after one comparison: both sides are rated anew from their
/// ratings so far, the left side first.
pub open spec fn play(db: Seq<FileView>, ratings: Seq<Rating>, vote: VoteView) -> Seq<Rating> {
    match (find(db, vote.left_path), find(db, vote.right_path)) {
        (Some(l), Some(r)) => {
            let pair = rated(ratings[l], ratings[r], Outcome::of(vote.vote));
            ratings.update(l, pair.0).update(r, pair.1)
        },
        _ => ratings,
    }
}

/// The ratings after the given comparisons, played in the given order.
pub open spec fn replay(db: Seq<FileView>, ratings: Seq<Rating>, votes: Seq<VoteView>) -> Seq<
    Rating,
>
    decreases votes.len(),
{
    if votes.len() == 0 {
        ratings
    } else {
        play(db, replay(db, ratings, votes.drop_last()), votes.last())
    }
}

/// The prior, once for each of `n` entries.
pub open spec fn priors(n: nat) -> Seq<Rating> {
    Seq::new(n, |i: int| Rating::prior())
}

/// The rating of each entry of `db`: the prior, then every comparison that
/// counts, oldest first, comparisons of one timestamp in log order.
pub open spec fn ratings_of(db: Seq<FileView>, votes: Seq<VoteView>) -> Seq<Rating> {
    replay(db, priors(db.len()), stable_sort(by_time(), eligible_votes(db, votes)))
}

/// The entries of `db` under the ratings that the log gives them.
pub open spec fn rated_files(db: Seq<FileView>, votes: Seq<VoteView>) -> Seq<FileView> {
    Seq::new(db.len(), |i: int| db[i].with_rating(ratings_of(db, votes)[i]))
}

/// The entries that a listing shows: all of them, or all but the deleted.
pub open spec fn listed(files: Seq<FileView>, include_deleted: bool) -> Seq<FileView>
    decreases files.len(),
{
    if files.len() == 0 {
        Seq::empty()
    } else {
        let before = listed(files.drop_last(), include_deleted);
        if include_deleted || !files.last().is_deleted() {
            before.push(files.last())
        } else {
            before
        }
    }
}

/// The ranked listing: the entries shown, lowest rating first, entries of one
/// rating by path.
pub open spec fn ranking(db: Seq<FileView>, votes: Seq<VoteView>, include_deleted: bool) -> Seq<
    FileView,
> {
    stable_sort(by_rank(), listed(rated_files(db, votes), include_deleted))
}

/// The order of the log compares any two comparisons, and is transitive.
pub proof fn lemma_by_time_is_an_order()
    ensures
        is_total(by_time()),
        is_transitive(by_time()),
{
}

/// The order of the listing compares any two entries, and is transitive.
pub proof fn lemma_by_rank_is_an_order()
    ensures
        is_total(by_rank()),
        is_transitive(by_rank()),
{
    assert forall|a: FileView, b: FileView| #[trigger] by_rank()(a, b) || #[trigger] by_rank()(
        b,
        a,
    ) by {
        lemma_lex_le_total(vstd::utf8::encode_utf8(a.path), vstd::utf8::encode_utf8(b.path));
    }
    assert forall|a: FileView, b: FileView, c: FileView| #[trigger]
        by_rank()(a, b) && #[trigger] by_rank()(b, c) implies by_rank()(a, c) by {
        if whole_points(a.rating) == whole_points(b.rating) && whole_points(b.rating)
            == whole_points(c.rating) {
            lemma_lex_le_transitive(
                vstd::utf8::encode_utf8(a.path),
                vstd::utf8::encode_utf8(b.path),
                vstd::utf8::encode_utf8(c.path),
            );
        }
    }
}

/// The replay takes the comparisons that count oldest first, takes each of
/// them once, and takes those of one timestamp in log order.
pub proof fn lemma_replay_order(db: Seq<FileView>, votes: Seq<VoteView>)
    ensures
        is_sorted(by_time(), stable_sort(by_time(), eligible_votes(db, votes))),
        stable_sort(by_time(), eligible_votes(db, votes)).to_multiset() == eligible_votes(
            db,
            votes,
        ).to_multiset(),
        forall|z: VoteView|
            stable_sort(by_time(), eligible_votes(db, votes)).filter(
                #[trigger] ranks_with(by_time(), z),
            ) == eligible_votes(db, votes).filter(ranks_with(by_time(), z)),
{
    lemma_by_time_is_an_order();
    lemma_stable_sort_is_sorted(by_time(), eligible_votes(db, votes));
    lemma_stable_sort_permutes(by_time(), eligible_votes(db, votes));
    assert forall|z: VoteView|
        stable_sort(by_time(), eligible_votes(db, votes)).filter(
            #[trigger] ranks_with(by_time(), z),
        ) == eligible_votes(db, votes).filter(ranks_with(by_time(), z)) by {
        lemma_stable_sort_is_stable(by_time(), eligible_votes(db, votes), z);
    }
}

/// The listing is in rank order, lowest rating first and entries of one
/// rating by path; it holds each entry that is shown once; and entries of one
/// rating and one path stand as they stood in the store.
pub proof fn lemma_ranking_is_sorted(db: Seq<FileView>, votes: Seq<VoteView>, include_deleted: bool)
    ensures
        is_sorted(by_rank(), ranking(db, votes, include_deleted)),
        ranking(db, votes, include_deleted).to_multiset() == listed(
            rated_files(db, votes),
            include_deleted,
        ).to_multiset(),
        ranking(db, votes, include_deleted).len() == listed(
            rated_files(db, votes),
            include_deleted,
        ).len(),
        forall|z: FileView|
            ranking(db, votes, include_deleted).filter(#[trigger] ranks_with(by_rank(), z))
                == listed(rated_files(db, votes), include_deleted).filter(
                ranks_with(by_rank(), z),
            ),
{
    let shown = listed(rated_files(db, votes), include_deleted);
    lemma_by_rank_is_an_order();
    lemma_stable_sort_is_sorted(by_rank(), shown);
    lemma_stable_sort_permutes(by_rank(), shown);
    assert forall|z: FileView|
        ranking(db, votes, include_deleted).filter(#[trigger] ranks_with(by_rank(), z))
            == shown.filter(ranks_with(by_rank(), z)) by {
        lemma_stable_sort_is_stable(by_rank(), shown, z);
    }
}

/// A comparison with a side that is not live, put anywhere into the log,
/// leaves the comparisons that count as they were.
pub proof fn lemma_eligible_votes_skip(
    db: Seq<FileView>,
    votes: Seq<VoteView>,
    k: int,
    vote: VoteView,
)
    requires
        0 <= k <= votes.len(),
        !eligible(db, vote),
    ensures
        eligible_votes(db, votes.insert(k, vote)) == eligible_votes(db, votes),
    decreases votes.len() - k,
{
    let longer = votes.insert(k, vote);
    if k == votes.len() {
        assert(longer.drop_last() =~= votes);
        assert(longer.last() == vote);
    } else {
        assert(longer.drop_last() =~= votes.drop_last().insert(k, vote));
        assert(longer.last() == votes.last());
        lemma_eligible_votes_skip(db, votes.drop_last(), k, vote);
    }
}

/// A comparison whose left or right side is deleted, or not known at all,
/// takes no part in the ratings: with it or without it, wherever it stands
/// in the log, every entry gets the same rating and the listing is the same.
pub proof fn lemma_not_live_is_excluded(
    db: Seq<FileView>,
    votes: Seq<VoteView>,
    k: int,
    vote: VoteView,
    include_deleted: bool,
)
    requires
        0 <= k <= votes.len(),
        !is_live_path(db, vote.left_path) || !is_live_path(db, vote.right_path),
    ensures
        ratings_of(db, votes.insert(k, vote)) == ratings_of(db, votes),
        ranking(db, votes.insert(k, vote), include_deleted) == ranking(db, votes, include_deleted),
{
    lemma_eligible_votes_skip(db, votes, k, vote);
    assert(rated_files(db, votes.insert(k, vote)) =~= rated_files(db, votes));
}

/// Two stores hold the same paths at the same places, and an entry is live in
/// the one where it is live in the other.
pub open spec fn same_liveness(a: Seq<FileView>, b: Seq<FileView>) -> bool {
    &&& same_paths(a, b)
    &&& forall|i: int| 0 <= i < a.len() ==> (#[trigger] a[i]).is_live() == b[i].is_live()
}

/// The same comparisons count in two stores of the same liveness.
proof fn lemma_eligible_votes_by_liveness(a: Seq<FileView>, b: Seq<FileView>, votes: Seq<VoteView>)
    requires
        same_liveness(a, b),
    ensures
        eligible_votes(a, votes) == eligible_votes(b, votes),
    decreases votes.len(),
{
    if votes.len() > 0 {
        lemma_eligible_votes_by_liveness(a, b, votes.drop_last());
        lemma_find_same_paths(a, b, votes.last().left_path);
        lemma_find_same_paths(a, b, votes.last().right_path);
        lemma_find(a, votes.last().left_path);
        lemma_find(a, votes.last().right_path);
    }
}

/// A replay gives the same ratings in two stores of the same paths.
proof fn lemma_replay_by_paths(
    a: Seq<FileView>,
    b: Seq<FileView>,
    ratings: Seq<Rating>,
    votes: Seq<VoteView>,
)
    requires
        same_paths(a, b),
    ensures
        replay(a, ratings, votes) == replay(b, ratings, votes),
    decreases votes.len(),
{
    if votes.len() > 0 {
        lemma_replay_by_paths(a, b, ratings, votes.drop_last());
        lemma_find_same_paths(a, b, votes.last().left_path);
        lemma_find_same_paths(a, b, votes.last().right_path);
    }
}

/// The ratings follow from the paths of the entries, from which of them are
/// live, and from the log; the contents and the length of a history play no
/// part. An entry that is deleted, brought back and deleted again leaves
/// every rating as it was.
pub proof fn lemma_ratings_follow_liveness(
    db: Seq<FileView>,
    other: Seq<FileView>,
    votes: Seq<VoteView>,
)
    requires
        same_liveness(db, other),
    ensures
        ratings_of(db, votes) == ratings_of(other, votes),
{
    lemma_eligible_votes_by_liveness(db, other, votes);
    lemma_replay_by_paths(
        db,
        other,
        priors(db.len()),
        stable_sort(by_time(), eligible_votes(db, votes)),
    );
}

/// What a listing shows: without the deleted entries, every entry shown is
/// not deleted; and every entry that is not deleted is shown, as every entry
/// is where the deleted ones are asked for.
pub proof fn lemma_listed(files: Seq<FileView>, include_deleted: bool)
    ensures
        forall|k: int|
            0 <= k < listed(files, include_deleted).len() ==> files.contains(
                #[trigger] listed(files, include_deleted)[k],
            ) && (include_deleted || !listed(files, include_deleted)[k].is_deleted()),
        forall|i: int|
            0 <= i < files.len() && (include_deleted || !(#[trigger] files[i]).is_deleted())
                ==> listed(files, include_deleted).contains(files[i]),
    decreases files.len(),
{
    let shown = listed(files, include_deleted);
    if files.len() > 0 {
        let front = files.drop_last();
        let before = listed(front, include_deleted);
        lemma_listed(front, include_deleted);
        assert forall|k: int| 0 <= k < shown.len() implies files.contains(#[trigger] shown[k]) && (
        include_deleted || !shown[k].is_deleted()) by {
            if k < before.len() {
                assert(shown[k] == before[k]);
                let i = choose|i: int| 0 <= i < front.len() && front[i] == before[k];
                assert(files[i] == before[k]);
            } else {
                assert(shown[k] == files[files.len() - 1]);
            }
        }
        assert forall|i: int|
            0 <= i < files.len() && (include_deleted || !(#[trigger] files[i]).is_deleted())
            implies shown.contains(files[i]) by {
            if i < front.len() {
                assert(front[i] == files[i]);
                assert(before.contains(front[i]));
                let k = choose|k: int| 0 <= k < before.len() && before[k] == front[i];
                assert(shown[k] == files[i]);
            } else {
                assert(shown[shown.len() - 1] == files[i]);
            }
        }
    }
}

/// A deleted entry is not live, so a comparison with a deleted side is one
/// of those that [`lemma_not_live_is_excluded`] speaks of.
pub proof fn lemma_deleted_is_not_live(db: Seq<FileView>, path: Seq<char>)
    requires
        is_deleted_path(db, path),
    ensures
        !is_live_path(db, path),
{
}

/// The listing is a function of what the entries and the log hold: whatever
/// two calls of [`get_db_files`] on the same contents return, they return the
/// same.
pub proof fn lemma_get_db_files_is_determined(
    db_files: Vec<File>,
    votes: Vec<Vote>,
    again_files: Vec<File>,
    again_votes: Vec<Vote>,
    include_deleted: bool,
    first: Result<Vec<File>, Error>,
    second: Result<Vec<File>, Error>,
)
    requires
        db_files.deep_view() == again_files.deep_view(),
        votes.deep_view() == again_votes.deep_view(),
        call_ensures(get_db_files, (&db_files, &votes, include_deleted), first),
        call_ensures(get_db_files, (&again_files, &again_votes, include_deleted), second),
    ensures
        match (first, second) {
            (Ok(a), Ok(b)) => a.deep_view() == b.deep_view(),
            (Err(a), Err(b)) => a == b,
            _ => false,
        },
{
    let db = db_files.deep_view();
    match (first, second) {
        (Err(Error::EmptyHistory { index: i }), Err(Error::EmptyHistory { index: j })) => {
            if i < j {
                assert(db.take(j as int)[i as int] == db[i as int]);
            }
            if j < i {
                assert(db.take(i as int)[j as int] == db[j as int]);
            }
        },
        _ => {},
    }
}

/// Whether `a` is replayed at or before `b`.
fn votes_at_or_before(a: &Vote, b: &Vote) -> (le: bool)
    ensures
        le == by_time()(a@, b@),
{
    a.at <= b.at
}

/// Whether `a` is listed at or before `b`.
fn ranks_at_or_before(a: &File, b: &File) -> (le: bool)
    ensures
        le == by_rank()(a@, b@),
{
    let left: i64 = a.rating.points();
    let right: i64 = b.rating.points();
    if left != right {
        left < right
    } else {
        path_at_or_before(&a.path, &b.path)
    }
}

/// The comparisons that count, oldest first.
fn votes_in_order(db_files: &Vec<File>, votes: &Vec<Vote>) -> (ordered: Vec<Vote>)
    ensures
        ordered.deep_view() == stable_sort(
            by_time(),
            eligible_votes(db_files.deep_view(), votes.deep_view()),
        ),
{
    let ghost db = db_files.deep_view();
    let ghost log = votes.deep_view();
    let mut ordered: Vec<Vote> = Vec::new();
    let mut k: usize = 0;
    while k < votes.len()
        invariant
            k <= votes.len(),
            db == db_files.deep_view(),
            log == votes.deep_view(),
            ordered.deep_view() == stable_sort(by_time(), eligible_votes(db, log.take(k as int))),
        decreases votes.len() - k,
    {
        let vote = &votes[k];
        assert(vote@ == log[k as int]);
        assert(log.take(k + 1).drop_last() == log.take(k as int));
        assert(log.take(k + 1).last() == log[k as int]);
        if is_live_at(db_files, &vote.left_path) && is_live_at(db_files, &vote.right_path) {
            let ghost counted = eligible_votes(db, log.take(k as int));
            assert(counted.push(vote@).drop_last() == counted);
            insert_by(&mut ordered, vote.duplicate(), votes_at_or_before, Ghost(by_time()));
        }
        k += 1;
    }
    assert(log.take(votes.len() as int) == log);
    ordered
}

/// The rating of each entry after the given comparisons, played in the given
/// order from the prior.
fn replay_votes(db_files: &Vec<File>, ordered: &Vec<Vote>) -> (ratings: Vec<Rating>)
    ensures
        ratings@ == replay(
            db_files.deep_view(),
            priors(db_files.deep_view().len()),
            ordered.deep_view(),
        ),
        ratings.len() == db_files.len(),
{
    let ghost db = db_files.deep_view();
    let ghost log = ordered.deep_view();
    let mut ratings: Vec<Rating> = Vec::new();
    let mut i: usize = 0;
    while i < db_files.len()
        invariant
            i <= db_files.len(),
            ratings@ == priors(i as nat),
        decreases db_files.len() - i,
    {
        ratings.push(Rating::new());
        assert(ratings@ =~= priors((i + 1) as nat));
        i += 1;
    }
    let mut k: usize = 0;
    while k < ordered.len()
        invariant
            k <= ordered.len(),
            db == db_files.deep_view(),
            log == ordered.deep_view(),
            ratings.len() == db_files.len(),
            ratings@ == replay(db, priors(db.len()), log.take(k as int)),
        decreases ordered.len() - k,
    {
        let vote = &ordered[k];
        assert(vote@ == log[k as int]);
        assert(log.take(k + 1).drop_last() == log.take(k as int));
        assert(log.take(k + 1).last() == log[k as int]);
        let left = find_file(db_files, &vote.left_path);
        let right = find_file(db_files, &vote.right_path);
        if let (Some(l), Some(r)) = (left, right) {
            let pair = ratings[l].compare(&ratings[r], Outcome::from_vote(vote.vote));
            ratings.set(l, pair.0);
            ratings.set(r, pair.1);
        }
        k += 1;
    }
    assert(log.take(ordered.len() as int) == log);
    ratings
}

/// Rates and ranks the entries `db_files` from the comparison log `votes`.
///
/// Ratings that the entries carry are not read: every entry starts from the
/// prior. The comparisons whose two sides are live are replayed oldest first,
/// those of one timestamp in log order. The listing holds the entries that
/// are not deleted, and the deleted ones too where `include_deleted` is set,
/// from the lowest rating to the highest.
///
/// The call is refused where an entry has no version.
pub fn get_db_files(db_files: &Vec<File>, votes: &Vec<Vote>, include_deleted: bool) -> (result:
    Result<Vec<File>, Error>)
    ensures
        match result {
            Ok(files) => {
                &&& all_have_history(db_files.deep_view())
                &&& files.deep_view() == ranking(
                    db_files.deep_view(),
                    votes.deep_view(),
                    include_deleted,
                )
            },
            Err(Error::EmptyHistory { index }) => {
                &&& index < db_files.len()
                &&& db_files.deep_view()[index as int].file_contents.len() == 0
                &&& all_have_history(db_files.deep_view().take(index as int))
            },
            Err(_) => false,
        },
{
    if let Some(index) = first_without_history(db_files) {
        return Err(Error::EmptyHistory { index });
    }
    let ghost db = db_files.deep_view();
    let ghost log = votes.deep_view();
    let ghost rated = rated_files(db, log);
    let ordered = votes_in_order(db_files, votes);
    let ratings = replay_votes(db_files, &ordered);
    let mut listing: Vec<File> = Vec::new();
    let mut i: usize = 0;
    while i < db_files.len()
        invariant
            i <= db_files.len(),
            db == db_files.deep_view(),
            rated == rated_files(db, log),
            ratings@ == ratings_of(db, log),
            ratings.len() == db_files.len(),
            listing.deep_view() == stable_sort(
                by_rank(),
                listed(rated.take(i as int), include_deleted),
            ),
        decreases db_files.len() - i,
    {
        let entry = &db_files[i];
        assert(entry@ == db[i as int]);
        assert(rated.take(i + 1).drop_last() == rated.take(i as int));
        assert(rated.take(i + 1).last() == rated[i as int]);
        if include_deleted || !entry.is_deleted() {
            let mut file = entry.duplicate();
            file.rating = ratings[i];
            assert(file@ == rated[i as int]);
            let ghost shown = listed(rated.take(i as int), include_deleted);
            assert(shown.push(file@).drop_last() == shown);
            insert_by(&mut listing, file, ranks_at_or_before, Ghost(by_rank()));
        }
        i += 1;
    }
    assert(rated.take(db_files.len() as int) == rated);
    Ok(listing)
}

} // verus!
