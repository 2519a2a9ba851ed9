//! Stable ordering of sequences, and the order of paths.

use vstd::prelude::*;

verus! {

/// `sorted` with `x` put behind the last item that is not after it. Items
/// that `le` does not tell apart keep the order in which they came.
pub open spec fn insert_sorted<T>(le: spec_fn(T, T) -> bool, sorted: Seq<T>, x: T) -> Seq<T>
    decreases sorted.len(),
{
    if sorted.len() == 0 {
        seq![x]
    } else if le(sorted.last(), x) {
        sorted.push(x)
    } else {
        insert_sorted(le, sorted.drop_last(), x).push(sorted.last())
    }
}

/// The items of `items` in the order of `le`, equal items in their first order.
pub open spec fn stable_sort<T>(le: spec_fn(T, T) -> bool, items: Seq<T>) -> Seq<T>
    decreases items.len(),
{
    if items.len() == 0 {
        Seq::empty()
    } else {
        insert_sorted(le, stable_sort(le, items.drop_last()), items.last())
    }
}

/// Every item is at or before every later item.
pub open spec fn is_sorted<T>(le: spec_fn(T, T) -> bool, items: Seq<T>) -> bool {
    forall|i: int, j: int| 0 <= i < j < items.len() ==> le(#[trigger] items[i], #[trigger] items[j])
}

/// Any two items compare one way or the other.
pub open spec fn is_total<T>(le: spec_fn(T, T) -> bool) -> bool {
    forall|a: T, b: T| #[trigger] le(a, b) || #[trigger] le(b, a)
}

/// What is at or before an item is at or before all that the item is at or
/// before.
pub open spec fn is_transitive<T>(le: spec_fn(T, T) -> bool) -> bool {
    forall|a: T, b: T, c: T| #[trigger] le(a, b) && #[trigger] le(b, c) ==> le(a, c)
}

/// The place where `insert_sorted` puts `x`: in front of the items that are
/// after it, behind the nearest one that is not.
pub proof fn lemma_insert_position<T>(le: spec_fn(T, T) -> bool, sorted: Seq<T>, x: T, p: int)
    requires
        0 <= p <= sorted.len(),
        forall|j: int| p <= j < sorted.len() ==> !le(#[trigger] sorted[j], x),
        p > 0 ==> le(sorted[p - 1], x),
    ensures
        insert_sorted(le, sorted, x) == sorted.insert(p, x),
    decreases sorted.len() - p,
{
    if p == sorted.len() {
        assert(sorted.insert(p, x) =~= sorted.push(x));
    } else {
        let front = sorted.drop_last();
        assert(!le(sorted[sorted.len() - 1], x));
        assert forall|j: int| p <= j < front.len() implies !le(#[trigger] front[j], x) by {
            assert(front[j] == sorted[j]);
        }
        lemma_insert_position(le, front, x, p);
        assert(front.insert(p, x).push(sorted.last()) =~= sorted.insert(p, x));
    }
}

/// Inserting keeps every item and adds the new one.
pub proof fn lemma_insert_sorted_permutes<T>(le: spec_fn(T, T) -> bool, sorted: Seq<T>, x: T)
    ensures
        insert_sorted(le, sorted, x).to_multiset() == sorted.to_multiset().insert(x),
        insert_sorted(le, sorted, x).len() == sorted.len() + 1,
    decreases sorted.len(),
{
    broadcast use vstd::seq_lib::group_to_multiset_ensures;

    if sorted.len() == 0 {
        assert(sorted =~= Seq::empty());
        assert(seq![x] =~= Seq::<T>::empty().push(x));
    } else if le(sorted.last(), x) {
    } else {
        let front = sorted.drop_last();
        lemma_insert_sorted_permutes(le, front, x);
        assert(sorted =~= front.push(sorted.last()));
        assert(insert_sorted(le, front, x).push(sorted.last()).to_multiset() =~= front.push(
            sorted.last(),
        ).to_multiset().insert(x));
    }
}

/// Sorting keeps every item, as often as it occurs.
pub proof fn lemma_stable_sort_permutes<T>(le: spec_fn(T, T) -> bool, items: Seq<T>)
    ensures
        stable_sort(le, items).to_multiset() == items.to_multiset(),
        stable_sort(le, items).len() == items.len(),
    decreases items.len(),
{
    broadcast use vstd::seq_lib::group_to_multiset_ensures;

    if items.len() == 0 {
        assert(items =~= Seq::empty());
    } else {
        let front = items.drop_last();
        lemma_stable_sort_permutes(le, front);
        lemma_insert_sorted_permutes(le, stable_sort(le, front), items.last());
        assert(items =~= front.push(items.last()));
    }
}

/// Inserting into a sorted sequence leaves it sorted.
pub proof fn lemma_insert_sorted_is_sorted<T>(le: spec_fn(T, T) -> bool, sorted: Seq<T>, x: T)
    requires
        is_total(le),
        is_transitive(le),
        is_sorted(le, sorted),
    ensures
        is_sorted(le, insert_sorted(le, sorted, x)),
    decreases sorted.len(),
{
    let out = insert_sorted(le, sorted, x);
    if sorted.len() == 0 {
    } else if le(sorted.last(), x) {
        assert forall|i: int, j: int| 0 <= i < j < out.len() implies le(
            #[trigger] out[i],
            #[trigger] out[j],
        ) by {
            if j == sorted.len() {
                if i < sorted.len() - 1 {
                    assert(le(sorted[i], sorted[sorted.len() - 1]));
                }
            } else {
                assert(le(sorted[i], sorted[j]));
            }
        }
    } else {
        let front = sorted.drop_last();
        let last = sorted.last();
        assert forall|i: int, j: int| 0 <= i < j < front.len() implies le(
            #[trigger] front[i],
            #[trigger] front[j],
        ) by {
            assert(le(sorted[i], sorted[j]));
        }
        lemma_insert_sorted_is_sorted(le, front, x);
        lemma_insert_sorted_permutes(le, front, x);
        let mid = insert_sorted(le, front, x);
        assert(le(x, last));
        assert forall|i: int, j: int| 0 <= i < j < out.len() implies le(
            #[trigger] out[i],
            #[trigger] out[j],
        ) by {
            if j == mid.len() {
                // every item of `mid` is `x` or an item of `front`
                broadcast use vstd::seq_lib::group_to_multiset_ensures;

                assert(mid.to_multiset().count(mid[i]) > 0);
                if mid[i] != x {
                    assert(front.to_multiset().count(mid[i]) > 0);
                    assert(front.contains(mid[i]));
                    let k = choose|k: int| 0 <= k < front.len() && front[k] == mid[i];
                    assert(le(sorted[k], sorted[sorted.len() - 1]));
                }
            } else {
                assert(le(mid[i], mid[j]));
            }
        }
    }
}

/// Under a total and transitive order, the result of sorting is sorted.
pub proof fn lemma_stable_sort_is_sorted<T>(le: spec_fn(T, T) -> bool, items: Seq<T>)
    requires
        is_total(le),
        is_transitive(le),
    ensures
        is_sorted(le, stable_sort(le, items)),
    decreases items.len(),
{
    if items.len() > 0 {
        lemma_stable_sort_is_sorted(le, items.drop_last());
        lemma_insert_sorted_is_sorted(le, stable_sort(le, items.drop_last()), items.last());
    }
}

/// Whether an item ranks with `z`: each is at or before the other.
pub open spec fn ranks_with<T>(le: spec_fn(T, T) -> bool, z: T) -> spec_fn(T) -> bool {
    |e: T| le(z, e) && le(e, z)
}

/// What filtering does to a sequence with one more item at its end.
proof fn lemma_filter_push<T>(items: Seq<T>, x: T, keep: spec_fn(T) -> bool)
    ensures
        items.push(x).filter(keep) == if keep(x) {
            items.filter(keep).push(x)
        } else {
            items.filter(keep)
        },
{
    reveal(Seq::filter);
    assert(items.push(x).drop_last() =~= items);
}

/// Inserting puts the new item behind the items that rank with it.
pub proof fn lemma_insert_sorted_is_stable<T>(le: spec_fn(T, T) -> bool, sorted: Seq<T>, x: T, z: T)
    requires
        is_transitive(le),
    ensures
        insert_sorted(le, sorted, x).filter(ranks_with(le, z)) == sorted.push(x).filter(
            ranks_with(le, z),
        ),
    decreases sorted.len(),
{
    let class = ranks_with(le, z);
    if sorted.len() == 0 {
        assert(seq![x] =~= sorted.push(x));
    } else if le(sorted.last(), x) {
    } else {
        let front = sorted.drop_last();
        let last = sorted.last();
        assert(sorted =~= front.push(last));
        lemma_insert_sorted_is_stable(le, front, x, z);
        let mid = insert_sorted(le, front, x);
        lemma_filter_push(mid, last, class);
        lemma_filter_push(front, x, class);
        lemma_filter_push(front, last, class);
        lemma_filter_push(sorted, x, class);
        if class(x) && class(last) {
            assert(le(last, z) && le(z, x));
            assert(le(last, x));
        }
    }
}

/// Sorting is stable: the items that rank with one another come out in the
/// order in which they went in.
pub proof fn lemma_stable_sort_is_stable<T>(le: spec_fn(T, T) -> bool, items: Seq<T>, z: T)
    requires
        is_transitive(le),
    ensures
        stable_sort(le, items).filter(ranks_with(le, z)) == items.filter(ranks_with(le, z)),
    decreases items.len(),
{
    let class = ranks_with(le, z);
    if items.len() == 0 {
        assert(stable_sort(le, items) =~= items);
    } else {
        let front = items.drop_last();
        assert(items =~= front.push(items.last()));
        lemma_stable_sort_is_stable(le, front, z);
        lemma_insert_sorted_is_stable(le, stable_sort(le, front), items.last(), z);
        lemma_filter_push(stable_sort(le, front), items.last(), class);
        lemma_filter_push(front, items.last(), class);
    }
}

/// Puts `item` into `sorted` where [`insert_sorted`] puts it under `order`,
/// the order that `le` decides.
pub(crate) fn insert_by<T: DeepView, F: Fn(&T, &T) -> bool>(
    sorted: &mut Vec<T>,
    item: T,
    le: F,
    Ghost(order): Ghost<spec_fn(T::V, T::V) -> bool>,
)
    requires
        forall|a: &T, b: &T| call_requires(le, (a, b)),
        forall|a: &T, b: &T, r: bool|
            call_ensures(le, (a, b), r) ==> r == order(a.deep_view(), b.deep_view()),
    ensures
        final(sorted).deep_view() == insert_sorted(
            order,
            old(sorted).deep_view(),
            item.deep_view(),
        ),
{
    let mut p: usize = sorted.len();
    while p > 0 && !le(&sorted[p - 1], &item)
        invariant
            p <= sorted.len(),
            forall|a: &T, b: &T| call_requires(le, (a, b)),
            forall|a: &T, b: &T, r: bool|
                call_ensures(le, (a, b), r) ==> r == order(a.deep_view(), b.deep_view()),
            forall|j: int|
                p <= j < sorted.len() ==> !order(
                    #[trigger] sorted.deep_view()[j],
                    item.deep_view(),
                ),
        decreases p,
    {
        p -= 1;
    }
    proof {
        let before = sorted.deep_view();
        assert(p > 0 ==> order(before[p - 1], item.deep_view()));
        lemma_insert_position(order, before, item.deep_view(), p as int);
    }
    let ghost placed = item.deep_view();
    sorted.insert(p, item);
    assert(sorted.deep_view() =~= old(sorted).deep_view().insert(p as int, placed));
}

/// Whether `a` is at or before `b` byte by byte: at the first place where
/// they differ `a` has the smaller byte, or `a` ends there.
pub open spec fn lex_le(a: Seq<u8>, b: Seq<u8>) -> bool
    decreases a.len(),
{
    if a.len() == 0 {
        true
    } else if b.len() == 0 {
        false
    } else if a[0] != b[0] {
        a[0] < b[0]
    } else {
        lex_le(a.drop_first(), b.drop_first())
    }
}

/// Of two byte strings one is at or before the other.
pub proof fn lemma_lex_le_total(a: Seq<u8>, b: Seq<u8>)
    ensures
        lex_le(a, b) || lex_le(b, a),
    decreases a.len(),
{
    if a.len() > 0 && b.len() > 0 && a[0] == b[0] {
        lemma_lex_le_total(a.drop_first(), b.drop_first());
    }
}

/// What is at or before a byte string is at or before all that follow it.
pub proof fn lemma_lex_le_transitive(a: Seq<u8>, b: Seq<u8>, c: Seq<u8>)
    requires
        lex_le(a, b),
        lex_le(b, c),
    ensures
        lex_le(a, c),
    decreases a.len(),
{
    if a.len() > 0 && b.len() > 0 && c.len() > 0 && a[0] == b[0] && b[0] == c[0] {
        lemma_lex_le_transitive(a.drop_first(), b.drop_first(), c.drop_first());
    }
}

/// Whether `a` is at or before `b` byte by byte.
pub fn bytes_le(a: &[u8], b: &[u8]) -> (le: bool)
    ensures
        le == lex_le(a@, b@),
{
    let mut i: usize = 0;
    assert(a@.skip(0) =~= a@ && b@.skip(0) =~= b@);
    while i < a.len() && i < b.len()
        invariant
            i <= a.len(),
            i <= b.len(),
            lex_le(a@, b@) == lex_le(a@.skip(i as int), b@.skip(i as int)),
        decreases a.len() - i,
    {
        assert(a@.skip(i as int)[0] == a@[i as int]);
        assert(b@.skip(i as int)[0] == b@[i as int]);
        assert(a@.skip(i as int).drop_first() =~= a@.skip(i + 1));
        assert(b@.skip(i as int).drop_first() =~= b@.skip(i + 1));
        if a[i] != b[i] {
            return a[i] < b[i];
        }
        i += 1;
    }
    a.len() <= b.len()
}

/// The order of two paths: that of their UTF-8 bytes.
pub open spec fn path_le(a: Seq<char>, b: Seq<char>) -> bool {
    lex_le(vstd::utf8::encode_utf8(a), vstd::utf8::encode_utf8(b))
}

/// Whether the path `a` is at or before the path `b`.
pub fn path_at_or_before(a: &String, b: &String) -> (le: bool)
    ensures
        le == path_le(a@, b@),
{
    bytes_le(a.as_str().as_bytes(), b.as_str().as_bytes())
}

} // verus!
