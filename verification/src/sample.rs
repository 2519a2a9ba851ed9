//! Choosing the entries to put before the user.
//!
//! Entries are drawn at random, without repetition, under one of two
//! policies: every entry alike, or each weighted by the uncertainty of its
//! rating, so that the entries that the ranking knows least about come up
//! most often. What is drawn is left to chance; what every draw has in common
//! is stated here, and so is when a draw fails. No draw depends on an earlier
//! one.

use crate::entry::{File, FileView};
use crate::error::Error;
use crate::rating::{refused, weighted_positions, Rating};
use rand::seq::index::sample;
use rand::thread_rng;
use std::collections::VecDeque;
use vstd::prelude::*;

verus! {

/// How the entries to compare are chosen.
#[derive(Clone, Copy, Debug, PartialEq, Eq, Structural)]
pub enum Policy {
    /// Every entry is as likely to be drawn as any other.
    Uniform,
    /// An entry is the likelier to be drawn the less certain its rating is.
    Weighted,
}

/// What every draw of `amount` positions out of `len` has: as many positions
/// as were asked for (the samplers give all there are where more are asked
/// for); each within `0..len`; none twice.
pub open spec fn is_sample(positions: Seq<usize>, len: nat, amount: nat) -> bool {
    &&& positions.len() == if amount <= len {
        amount
    } else {
        len
    }
    &&& forall|k: int| 0 <= k < positions.len() ==> (#[trigger] positions[k]) < len
    &&& positions.no_duplicates()
}

/// Calls `rand::seq::index::sample` with `thread_rng()`: `amount` distinct
/// positions out of `0..len`. Which positions come back is left to chance;
/// the contract states what the sampler says of every draw. It is asked for
/// fewer positions than there are: it panics on more, and one of its methods
/// does not take all.
#[verifier::external_body]
fn uniform_positions(len: usize, amount: usize) -> (positions: Vec<usize>)
    requires
        amount < len,
    ensures
        is_sample(positions@, len as nat, amount as nat),
{
    sample(&mut thread_rng(), len, amount).into_vec()
}

/// The items at the given positions, in the order of the items.
pub open spec fn chosen(items: Seq<FileView>, positions: Seq<usize>) -> Seq<FileView>
    decreases items.len(),
{
    if items.len() == 0 {
        Seq::empty()
    } else {
        let before = chosen(items.drop_last(), positions);
        if positions.contains((items.len() - 1) as usize) {
            before.push(items.last())
        } else {
            before
        }
    }
}

/// Only the positions within the items matter, and only whether they occur.
pub proof fn lemma_chosen_by_membership(
    items: Seq<FileView>,
    positions: Seq<usize>,
    others: Seq<usize>,
)
    requires
        forall|p: usize| p < items.len() ==> #[trigger] positions.contains(p) == others.contains(p),
    ensures
        chosen(items, positions) == chosen(items, others),
    decreases items.len(),
{
    if items.len() > 0 {
        lemma_chosen_by_membership(items.drop_last(), positions, others);
    }
}

/// As many items are chosen as there are positions, where the positions are
/// within the items and none occurs twice.
pub proof fn lemma_chosen_len(items: Seq<FileView>, positions: Seq<usize>)
    requires
        items.len() <= usize::MAX,
        positions.no_duplicates(),
        forall|k: int| 0 <= k < positions.len() ==> (#[trigger] positions[k]) < items.len(),
    ensures
        chosen(items, positions).len() == positions.len(),
    decreases items.len(),
{
    if items.len() == 0 {
        if positions.len() > 0 {
            assert(positions[0] < 0);
        }
    } else {
        let top = (items.len() - 1) as usize;
        let front = items.drop_last();
        if positions.contains(top) {
            let k = choose|k: int| 0 <= k < positions.len() && positions[k] == top;
            let others = positions.remove(k);
            assert forall|a: int| 0 <= a < others.len() implies (#[trigger] others[a])
                < front.len() by {
                if a < k {
                    assert(others[a] == positions[a]);
                } else {
                    assert(others[a] == positions[a + 1]);
                }
            }
            assert(others.no_duplicates()) by {
                assert forall|a: int, b: int|
                    0 <= a < others.len() && 0 <= b < others.len() && a != b implies others[a]
                    != others[b] by {
                    let a0 = if a < k {
                        a
                    } else {
                        a + 1
                    };
                    let b0 = if b < k {
                        b
                    } else {
                        b + 1
                    };
                    assert(others[a] == positions[a0] && others[b] == positions[b0]);
                }
            }
            assert forall|p: usize| p < front.len() implies #[trigger] positions.contains(p)
                == others.contains(p) by {
                if positions.contains(p) {
                    let a = choose|a: int| 0 <= a < positions.len() && positions[a] == p;
                    if a < k {
                        assert(others[a] == p);
                    } else {
                        assert(others[a - 1] == p);
                    }
                }
                if others.contains(p) {
                    let a = choose|a: int| 0 <= a < others.len() && others[a] == p;
                    if a < k {
                        assert(positions[a] == p);
                    } else {
                        assert(positions[a + 1] == p);
                    }
                }
            }
            lemma_chosen_by_membership(front, positions, others);
            lemma_chosen_len(front, others);
        } else {
            assert forall|a: int| 0 <= a < positions.len() implies (#[trigger] positions[a])
                < front.len() by {
                assert(positions.contains(positions[a]));
            }
            lemma_chosen_len(front, positions);
        }
    }
}

/// Two distinct positions choose the two items at them, the earlier first.
pub proof fn lemma_chosen_pair(items: Seq<FileView>, positions: Seq<usize>, upto: int)
    requires
        items.len() <= usize::MAX,
        positions.len() == 2,
        positions[0] != positions[1],
        positions[0] < items.len(),
        positions[1] < items.len(),
        0 <= upto <= items.len(),
    ensures
        ({
            let lo = if positions[0] < positions[1] {
                positions[0] as int
            } else {
                positions[1] as int
            };
            let hi = if positions[0] < positions[1] {
                positions[1] as int
            } else {
                positions[0] as int
            };
            chosen(items.take(upto), positions) == if upto <= lo {
                Seq::<FileView>::empty()
            } else if upto <= hi {
                seq![items[lo]]
            } else {
                seq![items[lo], items[hi]]
            }
        }),
    decreases upto,
{
    if upto > 0 {
        lemma_chosen_pair(items, positions, upto - 1);
        assert(items.take(upto).drop_last() =~= items.take(upto - 1));
        assert(items.take(upto).last() == items[upto - 1]);
        let top = (upto - 1) as usize;
        if positions.contains(top) {
            let k = choose|k: int| 0 <= k < positions.len() && positions[k] == top;
            assert(k == 0 || k == 1);
            assert(Seq::<FileView>::empty().push(items[upto - 1]) =~= seq![items[upto - 1]]);
        } else {
            assert(positions[0] != top && positions[1] != top) by {
                assert(positions.contains(positions[0]));
                assert(positions.contains(positions[1]));
            }
        }
        let lo = if positions[0] < positions[1] {
            positions[0] as int
        } else {
            positions[1] as int
        };
        let hi = if positions[0] < positions[1] {
            positions[1] as int
        } else {
            positions[0] as int
        };
        if upto - 1 == hi {
            assert(positions.contains(top)) by {
                assert(positions[0] == top || positions[1] == top);
            }
            assert(seq![items[lo]].push(items[hi]) =~= seq![items[lo], items[hi]]);
        }
        if upto - 1 == lo {
            assert(positions.contains(top)) by {
                assert(positions[0] == top || positions[1] == top);
            }
        }
    }
}

/// All positions `0..len`, in order: the one draw there is of all of them.
fn all_positions(len: usize) -> (positions: Vec<usize>)
    ensures
        positions@ == Seq::new(len as nat, |i: int| i as usize),
        is_sample(positions@, len as nat, len as nat),
{
    let mut positions: Vec<usize> = Vec::new();
    let mut i: usize = 0;
    while i < len
        invariant
            i <= len,
            positions@ == Seq::new(i as nat, |k: int| k as usize),
        decreases len - i,
    {
        positions.push(i);
        assert(positions@ =~= Seq::new((i + 1) as nat, |k: int| k as usize));
        i += 1;
    }
    positions
}

/// Whether `position` is among `positions`.
fn is_among(positions: &Vec<usize>, position: usize) -> (hit: bool)
    ensures
        hit == positions@.contains(position),
{
    let mut k: usize = 0;
    while k < positions.len()
        invariant
            k <= positions.len(),
            forall|j: int| 0 <= j < k ==> positions@[j] != position,
        decreases positions.len() - k,
    {
        if positions[k] == position {
            return true;
        }
        k += 1;
    }
    false
}

/// What is left of a queue that held the items from `i` on, once its front
/// item is taken: the items from `i + 1` on; and the item taken is item `i`.
proof fn lemma_front_taken(
    all: Seq<FileView>,
    i: int,
    before: VecDeque<File>,
    front: File,
    after: VecDeque<File>,
)
    requires
        0 <= i,
        i + before@.len() == all.len(),
        before.deep_view() == all.skip(i),
        before@.len() > 0,
        front == before@[0],
        after@ == before@.subrange(1, before@.len() as int),
    ensures
        i < all.len(),
        front@ == all[i],
        after.deep_view() == all.skip(i + 1),
        all.take(i + 1).drop_last() == all.take(i),
        all.take(i + 1).last() == all[i],
{
    let held = before.deep_view();
    let left = after.deep_view();
    assert(held[0] == before@[0]@);
    assert forall|j: int| 0 <= j < left.len() implies #[trigger] left[j] == all.skip(i + 1)[j] by {
        assert(after@[j] == before@[j + 1]);
        assert(held[j + 1] == before@[j + 1]@);
        assert(held[j + 1] == all.skip(i)[j + 1]);
    }
    assert(left =~= all.skip(i + 1));
    assert(all.take(i + 1).drop_last() =~= all.take(i));
}

/// The items at the given positions, in the order of the items.
pub fn pick(items: VecDeque<File>, positions: &Vec<usize>) -> (picked: Vec<File>)
    ensures
        picked.deep_view() == chosen(items.deep_view(), positions@),
{
    let ghost all = items.deep_view();
    let mut rest = items;
    let mut picked: Vec<File> = Vec::new();
    let mut i: usize = 0;
    let total: usize = rest.len();
    assert(all.skip(0) =~= all);
    loop
        invariant
            total == all.len(),
            i + rest.len() == all.len(),
            rest.deep_view() == all.skip(i as int),
            picked.deep_view() == chosen(all.take(i as int), positions@),
        ensures
            picked.deep_view() == chosen(all, positions@),
        decreases rest.len(),
    {
        let ghost before = rest;
        match rest.pop_front() {
            None => {
                assert(all.take(i as int) =~= all);
                break;
            },
            Some(file) => {
                proof {
                    lemma_front_taken(all, i as int, before, file, rest);
                }
                if is_among(positions, i) {
                    let ghost so_far = picked.deep_view();
                    picked.push(file);
                    assert(picked.deep_view() =~= so_far.push(file@));
                }
                i += 1;
            },
        }
    }
    picked
}

/// The weights of a weighted draw: the rating of each item, in the order of
/// the items. The sampler weighs an item by the deviation of its rating.
pub open spec fn weights_of(items: Seq<FileView>) -> Seq<Rating> {
    Seq::new(items.len(), |i: int| items[i].rating)
}

/// The rating of each item, in the order of the items.
fn weights(items: &VecDeque<File>) -> (ratings: Vec<Rating>)
    ensures
        ratings@ == weights_of(items.deep_view()),
{
    let mut ratings: Vec<Rating> = Vec::new();
    let mut i: usize = 0;
    while i < items.len()
        invariant
            i <= items.len(),
            ratings@ == weights_of(items.deep_view()).take(i as int),
        decreases items.len() - i,
    {
        ratings.push(items[i].rating);
        assert(ratings@ =~= weights_of(items.deep_view()).take(i + 1));
        i += 1;
    }
    assert(ratings@ =~= weights_of(items.deep_view()));
    ratings
}

/// Draws `n` of the items at random under the given policy, without
/// repetition, and hands them out in the order of the items.
///
/// The draw fails where there are fewer than `n` items: it never hands out
/// fewer than were asked for. What is drawn is left to chance; every draw
/// holds `n` items, and these are the items at pairwise distinct positions.
/// A uniform draw of no more than there is always succeeds, and so does a
/// draw of nothing. A weighted draw fails where, and only where, the sampler
/// refuses the weights, which are the ratings of the items; the items are
/// then dropped.
pub fn take_n_with(policy: Policy, items: VecDeque<File>, n: usize) -> (result: Result<
    Vec<File>,
    Error,
>)
    ensures
        match result {
            Ok(picked) => {
                &&& n <= items.len()
                &&& policy == Policy::Weighted && n > 0 ==> !refused(weights_of(items.deep_view()))
                &&& picked.len() == n
                &&& exists|positions: Seq<usize>|
                    is_sample(positions, items.len() as nat, n as nat) && picked.deep_view()
                        == #[trigger] chosen(items.deep_view(), positions)
            },
            Err(Error::TooFewEntries) => items.len() < n,
            Err(Error::InvalidWeight) => {
                &&& 0 < n <= items.len()
                &&& policy == Policy::Weighted
                &&& refused(weights_of(items.deep_view()))
            },
            Err(_) => false,
        },
{
    if items.len() < n {
        return Err(Error::TooFewEntries);
    }
    let positions = match policy {
        Policy::Uniform => if n < items.len() {
            uniform_positions(items.len(), n)
        } else {
            all_positions(items.len())
        },
        Policy::Weighted => {
            let ratings = weights(&items);
            match weighted_positions(&ratings, n) {
                Ok(positions) => positions,
                Err(_) => {
                    return Err(Error::InvalidWeight);
                },
            }
        },
    };
    proof {
        lemma_chosen_len(items.deep_view(), positions@);
    }
    Ok(pick(items, &positions))
}

/// Draws `n` of the items at random, without repetition, each weighted by the
/// uncertainty of its rating, and hands them out in the order of the items:
/// [`take_n_with`] under [`Policy::Weighted`].
///
/// The draw fails where there are fewer than `n` items, and where the
/// sampler refuses the weights.
pub fn take_n(items: VecDeque<File>, n: usize) -> (result: Result<Vec<File>, Error>)
    ensures
        match result {
            Ok(picked) => {
                &&& n <= items.len()
                &&& n > 0 ==> !refused(weights_of(items.deep_view()))
                &&& picked.len() == n
                &&& exists|positions: Seq<usize>|
                    is_sample(positions, items.len() as nat, n as nat) && picked.deep_view()
                        == #[trigger] chosen(items.deep_view(), positions)
            },
            Err(Error::TooFewEntries) => items.len() < n,
            Err(Error::InvalidWeight) => 0 < n <= items.len() && refused(
                weights_of(items.deep_view()),
            ),
            Err(_) => false,
        },
{
    take_n_with(Policy::Weighted, items, n)
}

/// The entries that are live, in their order.
pub open spec fn live_entries(items: Seq<FileView>) -> Seq<FileView>
    decreases items.len(),
{
    if items.len() == 0 {
        Seq::empty()
    } else {
        let before = live_entries(items.drop_last());
        if items.last().is_live() {
            before.push(items.last())
        } else {
            before
        }
    }
}

/// The entries that are live, in their order.
pub fn keep_live(items: VecDeque<File>) -> (live: VecDeque<File>)
    ensures
        live.deep_view() == live_entries(items.deep_view()),
{
    let ghost all = items.deep_view();
    let mut rest = items;
    let mut live: VecDeque<File> = VecDeque::new();
    let mut i: usize = 0;
    let total: usize = rest.len();
    assert(all.skip(0) =~= all);
    loop
        invariant
            total == all.len(),
            i + rest.len() == all.len(),
            rest.deep_view() == all.skip(i as int),
            live.deep_view() == live_entries(all.take(i as int)),
        ensures
            live.deep_view() == live_entries(all),
        decreases rest.len(),
    {
        let ghost before = rest;
        match rest.pop_front() {
            None => {
                assert(all.take(i as int) =~= all);
                break;
            },
            Some(file) => {
                proof {
                    lemma_front_taken(all, i as int, before, file, rest);
                }
                if file.is_live() {
                    let ghost so_far = live.deep_view();
                    live.push_back(file);
                    assert(live.deep_view() =~= so_far.push(file@));
                }
                i += 1;
            },
        }
    }
    live
}

/// Draws two different live entries to compare under the given policy, the
/// one that stands earlier in `items` first. Entries that are not live take
/// no part.
///
/// Fewer than two live entries make no pair. Which two are drawn is left to
/// chance, as in [`take_n_with`]; a weighted draw fails where, and only
/// where, the sampler refuses the ratings of the live entries as weights.
pub fn select_pair(policy: Policy, items: VecDeque<File>) -> (result: Result<(File, File), Error>)
    ensures
        match result {
            Ok((first, second)) => {
                &&& policy == Policy::Weighted ==> !refused(
                    weights_of(live_entries(items.deep_view())),
                )
                &&& exists|i: int, j: int|
                    0 <= i < j < live_entries(items.deep_view()).len() && first@
                        == #[trigger] live_entries(items.deep_view())[i] && second@
                        == #[trigger] live_entries(items.deep_view())[j]
            },
            Err(Error::TooFewEntries) => live_entries(items.deep_view()).len() < 2,
            Err(Error::InvalidWeight) => {
                &&& live_entries(items.deep_view()).len() >= 2
                &&& policy == Policy::Weighted
                &&& refused(weights_of(live_entries(items.deep_view())))
            },
            Err(_) => false,
        },
{
    let ghost all = live_entries(items.deep_view());
    let live = keep_live(items);
    match take_n_with(policy, live, 2) {
        Err(e) => Err(e),
        Ok(mut picked) => {
            proof {
                let positions = choose|positions: Seq<usize>|
                    is_sample(positions, all.len(), 2) && picked.deep_view() == #[trigger] chosen(
                        all,
                        positions,
                    );
                lemma_chosen_pair(all, positions, all.len() as int);
                assert(all.take(all.len() as int) =~= all);
                let lo = if positions[0] < positions[1] {
                    positions[0] as int
                } else {
                    positions[1] as int
                };
                let hi = if positions[0] < positions[1] {
                    positions[1] as int
                } else {
                    positions[0] as int
                };
                assert(picked.deep_view() == seq![all[lo], all[hi]]);
                assert(picked.deep_view()[0] == all[lo] && picked.deep_view()[1] == all[hi]);
            }
            let second = picked.pop().unwrap();
            let first = picked.pop().unwrap();
            Ok((first, second))
        },
    }
}

/// Every live entry is an entry, and is live.
pub proof fn lemma_live_entries(items: Seq<FileView>)
    ensures
        forall|k: int|
            0 <= k < live_entries(items).len() ==> items.contains(
                #[trigger] live_entries(items)[k],
            ) && live_entries(items)[k].is_live(),
    decreases items.len(),
{
    let live = live_entries(items);
    if items.len() > 0 {
        let front = items.drop_last();
        let before = live_entries(front);
        lemma_live_entries(front);
        assert forall|k: int| 0 <= k < live.len() implies items.contains(#[trigger] live[k])
            && live[k].is_live() by {
            if k < before.len() {
                assert(live[k] == before[k]);
                let i = choose|i: int| 0 <= i < front.len() && front[i] == before[k];
                assert(items[i] == before[k]);
            } else {
                assert(live[k] == items[items.len() - 1]);
            }
        }
    }
}

} // verus!
