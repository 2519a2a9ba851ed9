//! Recording the outcome of a comparison.

use crate::entry::{File, Vote, VoteView};
use crate::error::Error;
use vstd::prelude::*;

verus! {

/// The record of a win of `winner` over `loser` at the time `at`: magnitude
/// one, the winner on the left.
pub open spec fn win(winner: Seq<char>, loser: Seq<char>, at: i64) -> VoteView {
    VoteView { left_path: winner, right_path: loser, vote: 1, at }
}

/// The record to append to the log for a win of `winner` over `loser`.
///
/// An entry cannot be compared with itself: where both paths are the same
/// the call fails, for every path, and there is nothing to append.
pub fn competition(winner: &String, loser: &String, at: i64) -> (result: Result<Vote, Error>)
    ensures
        winner@ == loser@ <==> result is Err,
        match result {
            Ok(vote) => vote@ == win(winner@, loser@, at),
            Err(e) => e == Error::SelfComparison,
        },
{
    if *winner == *loser {
        return Err(Error::SelfComparison);
    }
    Ok(Vote { left_path: winner.clone(), right_path: loser.clone(), vote: 1, at })
}

/// What follows from the user's answer to a pair.
///
/// `selection` is the position of the entry that the user preferred among
/// the first two of `items`, or `None` where the user gave no answer. No
/// answer ends the session: there is nothing to record. An answer records a
/// win of the preferred entry over the other one, at the time `at`.
///
/// An answer needs two entries to choose from, and names one of the two.
pub fn vote(items: &Vec<File>, selection: Option<usize>, at: i64) -> (result: Result<
    Option<Vote>,
    Error,
>)
    ensures
        match selection {
            None => result == Ok::<Option<Vote>, Error>(None),
            Some(chosen) => if items.len() < 2 {
                result == Err::<Option<Vote>, Error>(Error::TooFewEntries)
            } else if chosen >= 2 {
                result == Err::<Option<Vote>, Error>(Error::NoSuchItem { number: chosen })
            } else if items[chosen as int].path@ == items[1 - chosen].path@ {
                result == Err::<Option<Vote>, Error>(Error::SelfComparison)
            } else {
                result matches Ok(Some(vote)) && vote@ == win(
                    items[chosen as int].path@,
                    items[1 - chosen].path@,
                    at,
                )
            },
        },
{
    match selection {
        None => Ok(None),
        Some(chosen) => {
            if items.len() < 2 {
                return Err(Error::TooFewEntries);
            }
            if chosen >= 2 {
                return Err(Error::NoSuchItem { number: chosen });
            }
            let other: usize = 1 - chosen;
            match competition(&items[chosen].path, &items[other].path, at) {
                Ok(vote) => Ok(Some(vote)),
                Err(e) => Err(e),
            }
        },
    }
}

/// Appends the record of a win of `winner` over `loser` to the log, or leaves
/// the log as it is where the two are the same entry.
pub fn record(log: &mut Vec<Vote>, winner: &String, loser: &String, at: i64) -> (result: Result<
    (),
    Error,
>)
    ensures
        winner@ == loser@ <==> result is Err,
        match result {
            Ok(_) => final(log).deep_view() == old(log).deep_view().push(win(winner@, loser@, at)),
            Err(e) => e == Error::SelfComparison && final(log).deep_view() == old(log).deep_view(),
        },
{
    match competition(winner, loser, at) {
        Ok(vote) => {
            log.push(vote);
            assert(log.deep_view() =~= old(log).deep_view().push(vote@));
            Ok(())
        },
        Err(e) => Err(e),
    }
}

} // verus!
