//! Skill ratings and the paired update rule.
//!
//! A [`Rating`] is either the prior that every entry starts from or a state
//! that the Glicko-2 rule of the `skillratings` crate produced. The numbers
//! inside a state are not visible to the verifier: contracts speak of them
//! through the names [`rated`], [`whole_points`], [`whole_spread`] and
//! [`refused`].

use crate::sample::is_sample;
use rand::distributions::WeightedError;
use rand::seq::SliceRandom;
use rand::thread_rng;
use skillratings::glicko2::{glicko2, Glicko2Config, Glicko2Rating};
use skillratings::Outcomes;
use vstd::prelude::*;

verus! {

/// `skillratings::glicko2::Glicko2Rating`, carried through as an opaque value.
#[verifier::external_type_specification]
#[verifier::external_body]
pub struct ExGlicko2Rating(Glicko2Rating);

/// `rand::distributions::WeightedError`, carried through as an opaque value.
#[verifier::external_type_specification]
#[verifier::external_body]
pub struct ExWeightedError(WeightedError);

/// How a comparison ended, seen from its left side.
#[derive(Clone, Copy, Debug, PartialEq, Eq, Structural)]
pub enum Outcome {
    Win,
    Loss,
    Draw,
}

/// A skill estimate with its uncertainty.
#[derive(Clone, Copy, Debug)]
pub struct Rating {
    state: Option<Glicko2Rating>,
}

/// The two ratings that `skillratings::glicko2::glicko2` returns for a match
/// between `left` and `right` that ended in `outcome`, under the default
/// configuration.
pub uninterp spec fn rated(left: Rating, right: Rating, outcome: Outcome) -> (Rating, Rating);

/// The rating number of `rating`, cut to a whole number.
pub uninterp spec fn whole_points(rating: Rating) -> i64;

/// The deviation of `rating`, cut to a whole number.
pub uninterp spec fn whole_spread(rating: Rating) -> i64;

/// Whether the weighted sampler of `rand` refuses a draw from entries of
/// these ratings, whose deviations are its weights: it does where it meets a
/// weight that is not a number of zero or more.
pub uninterp spec fn refused(weights: Seq<Rating>) -> bool;

/// Calls `skillratings::glicko2::glicko2` with `Glicko2Config::new()`; the
/// prior stands for `Glicko2Rating::default()`. The rule is arithmetic on its
/// arguments and nothing else, so its result is named by [`rated`]. It is only
/// ever handed the prior or a state that it returned itself.
#[verifier::external_body]
fn glicko2_pair(left: &Rating, right: &Rating, outcome: Outcome) -> (pair: (Rating, Rating))
    ensures
        pair == rated(*left, *right, outcome),
{
    let played = match outcome {
        Outcome::Win => Outcomes::WIN,
        Outcome::Loss => Outcomes::LOSS,
        Outcome::Draw => Outcomes::DRAW,
    };
    let one = left.state.unwrap_or_default();
    let two = right.state.unwrap_or_default();
    let (one, two) = glicko2(&one, &two, &played, &Glicko2Config::new());
    (Rating { state: Some(one) }, Rating { state: Some(two) })
}

/// Reads the field `rating` of the `Glicko2Rating` behind `rating` (of
/// `Glicko2Rating::default()` for the prior) and casts it to `i64`. The
/// default is documented, and written in the source, as 1500.
#[verifier::external_body]
fn glicko2_points(rating: &Rating) -> (points: i64)
    ensures
        points == whole_points(*rating),
        *rating == Rating::prior() ==> points == 1500,
{
    rating.state.unwrap_or_default().rating as i64
}

/// Reads the field `deviation` of the `Glicko2Rating` behind `rating` (of
/// `Glicko2Rating::default()` for the prior) and casts it to `i64`. The
/// default is documented, and written in the source, as 350.
#[verifier::external_body]
fn glicko2_spread(rating: &Rating) -> (spread: i64)
    ensures
        spread == whole_spread(*rating),
        *rating == Rating::prior() ==> spread == 350,
{
    rating.state.unwrap_or_default().deviation as i64
}

/// Calls `SliceRandom::choose_multiple_weighted` of `rand` on the positions of
/// `ratings`, with `thread_rng()` and with the deviation of each rating as its
/// weight. Which positions come back is left to chance; the contract states
/// what the sampler's source shows of every draw. Whether it draws at all is
/// not left to chance: where nothing is to be drawn it reads no weight and
/// draws nothing; else it tests every weight, and fails on the weights alone,
/// which [`refused`] names.
#[verifier::external_body]
pub(crate) fn weighted_positions(ratings: &Vec<Rating>, amount: usize) -> (drawn: Result<
    Vec<usize>,
    WeightedError,
>)
    ensures
        match drawn {
            Ok(positions) => {
                &&& is_sample(positions@, ratings.len() as nat, amount as nat)
                &&& amount > 0 && ratings.len() > 0 ==> !refused(ratings@)
            },
            Err(_) => amount > 0 && ratings.len() > 0 && refused(ratings@),
        },
{
    let mut rng = thread_rng();
    let slots: Vec<(usize, Glicko2Rating)> =
        ratings.iter().map(|r| r.state.unwrap_or_default()).enumerate().collect();
    let drawn = slots.choose_multiple_weighted(&mut rng, amount, |slot| slot.1.deviation)?;
    Ok(drawn.map(|slot| slot.0).collect())
}

impl Outcome {
    /// What a signed magnitude means: positive, the left side won; zero, a
    /// draw; negative, the left side lost.
    pub open spec fn of(vote: i64) -> Outcome {
        if vote == 0 {
            Outcome::Draw
        } else if vote < 0 {
            Outcome::Loss
        } else {
            Outcome::Win
        }
    }

    /// Classifies a signed magnitude.
    pub fn from_vote(vote: i64) -> (outcome: Outcome)
        ensures
            outcome == Outcome::of(vote),
    {
        if vote == 0 {
            Outcome::Draw
        } else if vote < 0 {
            Outcome::Loss
        } else {
            Outcome::Win
        }
    }
}

impl Rating {
    /// The rating of an entry that no comparison has touched.
    pub closed spec fn prior() -> Rating {
        Rating { state: None }
    }

    /// The prior: neutral skill, maximal uncertainty.
    pub fn new() -> (rating: Rating)
        ensures
            rating == Rating::prior(),
    {
        Rating { state: None }
    }

    /// The rating number as a whole number, the key of the ranked listing.
    pub fn points(&self) -> (points: i64)
        ensures
            points == whole_points(*self),
            *self == Rating::prior() ==> points == 1500,
    {
        glicko2_points(self)
    }

    /// The uncertainty as a whole number.
    pub fn spread(&self) -> (spread: i64)
        ensures
            spread == whole_spread(*self),
            *self == Rating::prior() ==> spread == 350,
    {
        glicko2_spread(self)
    }

    /// Both ratings after one comparison between `self` (the left side) and
    /// `other`.
    pub fn compare(&self, other: &Rating, outcome: Outcome) -> (pair: (Rating, Rating))
        ensures
            pair == rated(*self, *other, outcome),
    {
        glicko2_pair(self, other, outcome)
    }
}

} // verus!
