//! Ranking items by size, largest first.

use crate::item::{file_total, lemma_file_total_concat, Item, ItemView};
use vstd::prelude::*;

verus! {

/// No item is larger than one before it.
pub open spec fn is_descending(items: Seq<ItemView>) -> bool {
    forall|i: int, j: int| 0 <= i < j < items.len() ==> items[i].size >= items[j].size
}

/// The items of one size, in the order in which they stand.
pub open spec fn of_size(items: Seq<ItemView>, size: u64) -> Seq<ItemView>
    decreases items.len(),
{
    if items.len() == 0 {
        Seq::empty()
    } else if items.last().size == size {
        of_size(items.drop_last(), size).push(items.last())
    } else {
        of_size(items.drop_last(), size)
    }
}

/// The two sequences hold the same items of each size, in the same order.
pub open spec fn same_by_size(a: Seq<ItemView>, b: Seq<ItemView>) -> bool {
    forall|size: u64| #[trigger] of_size(a, size) == of_size(b, size)
}

/// `ranked` holds the items of `items` by size, largest first, and those
/// of one size in the order that they have in `items`. There is one such
/// sequence for each `items`, and one only.
pub open spec fn is_ranking(ranked: Seq<ItemView>, items: Seq<ItemView>) -> bool {
    &&& is_descending(ranked)
    &&& same_by_size(ranked, items)
}

/// The items that stand at the places `order`, one after the other.
spec fn pick(items: Seq<ItemView>, order: Seq<usize>) -> Seq<ItemView> {
    Seq::new(order.len(), |k: int| items[order[k] as int])
}

/// Every place of `order` is a place of a sequence of `len` items.
spec fn in_range(order: Seq<usize>, len: int) -> bool {
    forall|k: int| 0 <= k < order.len() ==> (#[trigger] order[k]) < len
}

/// The items of one size in two sequences joined are those of the first,
/// then those of the second.
pub proof fn lemma_of_size_concat(a: Seq<ItemView>, b: Seq<ItemView>, size: u64)
    ensures
        of_size(a + b, size) == of_size(a, size) + of_size(b, size),
    decreases b.len(),
{
    if b.len() == 0 {
        assert(a + b =~= a);
        assert(of_size(a, size) + of_size(b, size) =~= of_size(a, size));
    } else {
        lemma_of_size_concat(a, b.drop_last(), size);
        assert((a + b).drop_last() =~= a + b.drop_last());
        assert((a + b).last() == b.last());
        assert(of_size(a + b, size) =~= of_size(a, size) + of_size(b, size));
    }
}

/// Where no item has the size, there are no items of that size.
pub proof fn lemma_of_size_none(items: Seq<ItemView>, size: u64)
    requires
        forall|i: int| 0 <= i < items.len() ==> (#[trigger] items[i]).size != size,
    ensures
        of_size(items, size) == Seq::<ItemView>::empty(),
    decreases items.len(),
{
    if items.len() > 0 {
        let front = items.drop_last();
        assert forall|i: int| 0 <= i < front.len() implies (#[trigger] front[i]).size != size by {
            assert(front[i] == items[i]);
        }
        lemma_of_size_none(front, size);
        assert(items.last() == items[items.len() - 1]);
    }
}

/// The items of one size are the items that have that size.
pub proof fn lemma_of_size_contains(items: Seq<ItemView>, size: u64, item: ItemView)
    ensures
        of_size(items, size).contains(item) <==> items.contains(item) && item.size == size,
    decreases items.len(),
{
    if items.len() > 0 {
        let front = items.drop_last();
        let last = items.last();
        lemma_of_size_contains(front, size, item);
        if items.contains(item) {
            let k = choose|k: int| 0 <= k < items.len() && items[k] == item;
            if k < front.len() {
                assert(front[k] == item);
            }
        }
        if front.contains(item) {
            let k = choose|k: int| 0 <= k < front.len() && front[k] == item;
            assert(items[k] == item);
        }
        assert(items[items.len() - 1] == last);
        if last.size == size {
            let chosen = of_size(front, size);
            let all = chosen.push(last);
            assert(all[chosen.len() as int] == last);
            if all.contains(item) {
                let k = choose|k: int| 0 <= k < all.len() && all[k] == item;
                if k < chosen.len() {
                    assert(chosen[k] == item);
                }
            }
            if chosen.contains(item) {
                let k = choose|k: int| 0 <= k < chosen.len() && chosen[k] == item;
                assert(all[k] == item);
            }
        }
    }
}

/// A ranking holds the items that were ranked, and no others.
pub proof fn lemma_ranking_keeps_items(ranked: Seq<ItemView>, items: Seq<ItemView>, item: ItemView)
    requires
        is_ranking(ranked, items),
    ensures
        ranked.contains(item) <==> items.contains(item),
{
    lemma_of_size_contains(ranked, item.size, item);
    lemma_of_size_contains(items, item.size, item);
    assert(of_size(ranked, item.size) == of_size(items, item.size));
}

/// Where there are items of a size, the place of the last of them: the
/// items of that size before it are all the others of that size, and none
/// follows it.
proof fn lemma_last_of_size(items: Seq<ItemView>, size: u64) -> (place: int)
    requires
        of_size(items, size).len() > 0,
    ensures
        0 <= place < items.len(),
        items[place] == of_size(items, size).last(),
        items[place].size == size,
        of_size(items.take(place), size) == of_size(items, size).drop_last(),
        of_size(items.skip(place + 1), size) == Seq::<ItemView>::empty(),
    decreases items.len(),
{
    let front = items.drop_last();
    if items.last().size == size {
        let place = items.len() - 1;
        assert(items.take(place) =~= front);
        assert(of_size(front, size).push(items.last()).drop_last() =~= of_size(front, size));
        assert(items.skip(place + 1) =~= Seq::<ItemView>::empty());
        place
    } else {
        let place = lemma_last_of_size(front, size);
        assert(front.take(place) =~= items.take(place));
        assert(items.skip(place + 1) =~= front.skip(place + 1).push(items.last()));
        assert(items.skip(place + 1).drop_last() =~= front.skip(place + 1));
        place
    }
}

/// A sequence that has no items of any size is empty.
proof fn lemma_no_sizes_no_items(items: Seq<ItemView>)
    requires
        forall|size: u64| #[trigger] of_size(items, size) == Seq::<ItemView>::empty(),
    ensures
        items.len() == 0,
{
    if items.len() > 0 {
        let item = items[0];
        lemma_of_size_contains(items, item.size, item);
        assert(of_size(items, item.size) == Seq::<ItemView>::empty());
    }
}

/// Two sequences that hold the same items of each size are as long as each
/// other, and their files hold the same bytes.
pub proof fn lemma_same_by_size_same_total(a: Seq<ItemView>, b: Seq<ItemView>)
    requires
        same_by_size(a, b),
    ensures
        a.len() == b.len(),
        file_total(a) == file_total(b),
    decreases b.len(),
{
    if b.len() == 0 {
        assert forall|size: u64| #[trigger] of_size(a, size) == Seq::<ItemView>::empty() by {
            assert(of_size(a, size) == of_size(b, size));
        }
        lemma_no_sizes_no_items(a);
    } else {
        let last = b.last();
        let rest = b.drop_last();
        assert(of_size(a, last.size) == of_size(b, last.size));
        assert(of_size(b, last.size) == of_size(rest, last.size).push(last));
        let place = lemma_last_of_size(a, last.size);
        let before = a.take(place);
        let after = a.skip(place + 1);
        let others = before + after;
        assert(a =~= before + seq![last] + after);
        assert(seq![last].drop_last() =~= Seq::<ItemView>::empty());
        assert forall|size: u64| #[trigger] of_size(others, size) == of_size(rest, size) by {
            lemma_of_size_concat(before, after, size);
            lemma_of_size_concat(before, seq![last], size);
            lemma_of_size_concat(before + seq![last], after, size);
            assert(of_size(a, size) == of_size(b, size));
            if size == last.size {
                assert(of_size(rest, size).push(last).drop_last() =~= of_size(rest, size));
                assert(of_size(others, size) =~= of_size(rest, size));
            } else {
                assert(seq![last].last() == last);
                assert(of_size(seq![last].drop_last(), size) =~= Seq::<ItemView>::empty());
                assert(of_size(seq![last], size) =~= Seq::<ItemView>::empty());
                assert(of_size(others, size) =~= of_size(rest, size));
            }
        }
        lemma_same_by_size_same_total(others, rest);
        lemma_file_total_concat(before, after);
        lemma_file_total_concat(before, seq![last]);
        lemma_file_total_concat(before + seq![last], after);
        assert(file_total(seq![last].drop_last()) == 0);
    }
}

/// A ranking is as long as what was ranked, and its files hold the same
/// bytes.
pub proof fn lemma_ranking_keeps_total(ranked: Seq<ItemView>, items: Seq<ItemView>)
    requires
        is_ranking(ranked, items),
    ensures
        ranked.len() == items.len(),
        file_total(ranked) == file_total(items),
{
    lemma_same_by_size_same_total(ranked, items);
}

/// Two descending sequences that hold the same items of each size are one
/// sequence.
proof fn lemma_descending_same_by_size(a: Seq<ItemView>, b: Seq<ItemView>)
    requires
        is_descending(a),
        is_descending(b),
        same_by_size(a, b),
    ensures
        a == b,
    decreases a.len(),
{
    lemma_same_by_size_same_total(a, b);
    if a.len() > 0 {
        let x = a.last();
        let y = b.last();
        assert(a[a.len() - 1] == x);
        assert(b[b.len() - 1] == y);
        lemma_of_size_contains(a, x.size, x);
        lemma_of_size_contains(b, x.size, x);
        lemma_of_size_contains(a, y.size, y);
        lemma_of_size_contains(b, y.size, y);
        assert(of_size(a, x.size) == of_size(b, x.size));
        assert(of_size(a, y.size) == of_size(b, y.size));
        let i = choose|i: int| 0 <= i < b.len() && b[i] == x;
        let j = choose|j: int| 0 <= j < a.len() && a[j] == y;
        assert(b[i].size >= b[b.len() - 1].size);
        assert(a[j].size >= a[a.len() - 1].size);
        assert(x.size == y.size);
        assert(of_size(a, x.size).last() == x);
        assert(of_size(b, x.size).last() == y);
        let front_a = a.drop_last();
        let front_b = b.drop_last();
        assert forall|size: u64| #[trigger] of_size(front_a, size) == of_size(front_b, size) by {
            assert(of_size(a, size) == of_size(b, size));
            if size == x.size {
                assert(of_size(front_a, size).push(x).drop_last() =~= of_size(front_a, size));
                assert(of_size(front_b, size).push(y).drop_last() =~= of_size(front_b, size));
            }
        }
        assert forall|i: int, j: int| 0 <= i < j < front_a.len() implies front_a[i].size
            >= front_a[j].size by {
            assert(a[i].size >= a[j].size);
        }
        assert forall|i: int, j: int| 0 <= i < j < front_b.len() implies front_b[i].size
            >= front_b[j].size by {
            assert(b[i].size >= b[j].size);
        }
        lemma_descending_same_by_size(front_a, front_b);
        assert(a =~= front_a.push(x));
        assert(b =~= front_b.push(y));
    }
}

/// There is one ranking only of a sequence of items.
pub proof fn lemma_ranking_is_unique(first: Seq<ItemView>, second: Seq<ItemView>, items: Seq<ItemView>)
    requires
        is_ranking(first, items),
        is_ranking(second, items),
    ensures
        first == second,
{
    assert forall|size: u64| #[trigger] of_size(first, size) == of_size(second, size) by {
        assert(of_size(first, size) == of_size(items, size));
        assert(of_size(second, size) == of_size(items, size));
    }
    lemma_descending_same_by_size(first, second);
}

/// The place of a new item of `size` bytes in a ranking: behind the items
/// that are as large or larger.
pub open spec fn place_of(ranked: Seq<ItemView>, size: u64) -> nat
    decreases ranked.len(),
{
    if ranked.len() == 0 || ranked[0].size < size {
        0
    } else {
        1 + place_of(ranked.drop_first(), size)
    }
}

/// Before its place in a descending sequence stand the items that are as
/// large as the new one or larger, and behind it the smaller ones.
proof fn lemma_place_of(ranked: Seq<ItemView>, size: u64)
    requires
        is_descending(ranked),
    ensures
        place_of(ranked, size) <= ranked.len(),
        forall|i: int| 0 <= i < place_of(ranked, size) ==> (#[trigger] ranked[i]).size >= size,
        forall|i: int|
            place_of(ranked, size) <= i < ranked.len() ==> (#[trigger] ranked[i]).size < size,
    decreases ranked.len(),
{
    if ranked.len() > 0 {
        if ranked[0].size < size {
            assert forall|i: int| 0 <= i < ranked.len() implies (#[trigger] ranked[i]).size
                < size by {
                if i > 0 {
                    assert(ranked[0].size >= ranked[i].size);
                }
            }
        } else {
            let tail = ranked.drop_first();
            assert forall|i: int, j: int| 0 <= i < j < tail.len() implies tail[i].size
                >= tail[j].size by {
                assert(ranked[i + 1].size >= ranked[j + 1].size);
            }
            lemma_place_of(tail, size);
            let place = place_of(ranked, size) as int;
            assert forall|i: int| 0 <= i < place implies (#[trigger] ranked[i]).size >= size by {
                if i > 0 {
                    assert(ranked[i] == tail[i - 1]);
                }
            }
            assert forall|i: int| place <= i < ranked.len() implies (#[trigger] ranked[i]).size
                < size by {
                assert(ranked[i] == tail[i - 1]);
            }
        }
    }
}

/// A ranking with one more item, put at its place, is the ranking of the
/// items with that item behind them.
proof fn lemma_ranking_grows(ranked: Seq<ItemView>, items: Seq<ItemView>, item: ItemView)
    requires
        is_ranking(ranked, items),
    ensures
        is_ranking(
            ranked.take(place_of(ranked, item.size) as int) + seq![item] + ranked.skip(
                place_of(ranked, item.size) as int,
            ),
            items.push(item),
        ),
{
    let place = place_of(ranked, item.size) as int;
    lemma_place_of(ranked, item.size);
    let before = ranked.take(place);
    let after = ranked.skip(place);
    let grown = before + seq![item] + after;
    assert(ranked =~= before + after);
    assert(seq![item].last() == item);
    assert(seq![item].drop_last() =~= Seq::<ItemView>::empty());
    assert(items.push(item).drop_last() =~= items);
    assert forall|i: int, j: int| 0 <= i < j < grown.len() implies grown[i].size
        >= grown[j].size by {
        if j < place {
            assert(ranked[i].size >= ranked[j].size);
        } else if j == place {
            assert(ranked[i].size >= item.size);
        } else if i < place {
            assert(ranked[i].size >= ranked[j - 1].size);
        } else if i == place {
            assert(ranked[j - 1].size < item.size);
        } else {
            assert(ranked[i - 1].size >= ranked[j - 1].size);
        }
    }
    assert forall|size: u64| #[trigger] of_size(grown, size) == of_size(items.push(item), size) by {
        lemma_of_size_concat(before, after, size);
        lemma_of_size_concat(before, seq![item], size);
        lemma_of_size_concat(before + seq![item], after, size);
        assert(of_size(ranked, size) == of_size(items, size));
        assert(of_size(seq![item].drop_last(), size) =~= Seq::<ItemView>::empty());
        if size == item.size {
            assert forall|i: int| 0 <= i < after.len() implies (#[trigger] after[i]).size
                != size by {
                assert(after[i] == ranked[place + i]);
            }
            lemma_of_size_none(after, size);
            assert(of_size(grown, size) =~= of_size(items.push(item), size));
        } else {
            assert(of_size(grown, size) =~= of_size(items.push(item), size));
        }
    }
}

/// Every sequence of items has a ranking.
pub proof fn lemma_ranking_exists(items: Seq<ItemView>)
    ensures
        is_ranking(ranking_of(items), items),
    decreases items.len(),
{
    if items.len() == 0 {
        assert(is_ranking(items, items));
    } else {
        let front = items.drop_last();
        let last = items.last();
        lemma_ranking_exists(front);
        let ranked = ranking_of(front);
        lemma_ranking_grows(ranked, front, last);
        assert(front.push(last) =~= items);
        let place = place_of(ranked, last.size) as int;
        assert(is_ranking(ranked.take(place) + seq![last] + ranked.skip(place), items));
    }
}

/// The ranking of a sequence of items.
pub open spec fn ranking_of(items: Seq<ItemView>) -> Seq<ItemView> {
    choose|ranked: Seq<ItemView>| is_ranking(ranked, items)
}

/// A ranking of `items` is the ranking of `items`.
pub proof fn lemma_ranking_of(ranked: Seq<ItemView>, items: Seq<ItemView>)
    requires
        is_ranking(ranked, items),
    ensures
        ranked == ranking_of(items),
{
    lemma_ranking_is_unique(ranked, ranking_of(items), items);
}

/// Joins two rankings into one. Of two items of one size, that of `left`
/// comes first.
fn merge(items: &Vec<Item>, left: &Vec<usize>, right: &Vec<usize>) -> (merged: Vec<usize>)
    requires
        in_range(left@, items.len() as int),
        in_range(right@, items.len() as int),
        is_descending(pick(items.deep_view(), left@)),
        is_descending(pick(items.deep_view(), right@)),
        left.len() + right.len() <= usize::MAX,
    ensures
        in_range(merged@, items.len() as int),
        merged.len() == left.len() + right.len(),
        is_ranking(
            pick(items.deep_view(), merged@),
            pick(items.deep_view(), left@) + pick(items.deep_view(), right@),
        ),
{
    let ghost all = items.deep_view();
    let ghost l = pick(all, left@);
    let ghost r = pick(all, right@);
    let mut merged: Vec<usize> = Vec::new();
    let mut i: usize = 0;
    let mut j: usize = 0;
    proof {
        assert(pick(all, merged@) =~= Seq::<ItemView>::empty());
        assert(l.take(0) =~= Seq::<ItemView>::empty());
        assert(r.take(0) =~= Seq::<ItemView>::empty());
        assert forall|size: u64| #[trigger]
            of_size(pick(all, merged@), size) == of_size(l.take(0), size) + of_size(
                r.take(0),
                size,
            ) by {
            assert(of_size(l.take(0), size) + of_size(r.take(0), size) =~= Seq::<ItemView>::empty());
        }
    }
    while i < left.len() || j < right.len()
        invariant
            i <= left.len(),
            j <= right.len(),
            all == items.deep_view(),
            l == pick(all, left@),
            r == pick(all, right@),
            in_range(left@, items.len() as int),
            in_range(right@, items.len() as int),
            is_descending(l),
            is_descending(r),
            left.len() + right.len() <= usize::MAX,
            merged.len() == i + j,
            in_range(merged@, items.len() as int),
            is_descending(pick(all, merged@)),
            forall|k: int|
                0 <= k < merged.len() && i < left.len() ==> (#[trigger] pick(all, merged@)[k]).size
                    >= l[i as int].size,
            forall|k: int|
                0 <= k < merged.len() && j < right.len() ==> (#[trigger] pick(all, merged@)[k]).size
                    >= r[j as int].size,
            forall|k: int| 0 <= k < j && i < left.len() ==> (#[trigger] r[k]).size > l[i as int].size,
            forall|size: u64| #[trigger]
                of_size(pick(all, merged@), size) == of_size(l.take(i as int), size) + of_size(
                    r.take(j as int),
                    size,
                ),
        decreases left.len() - i + (right.len() - j),
    {
        let ghost before = pick(all, merged@);
        let take_left = if j >= right.len() {
            true
        } else if i >= left.len() {
            false
        } else {
            assert(l[i as int] == items@[left@[i as int] as int]@);
            assert(r[j as int] == items@[right@[j as int] as int]@);
            items[left[i]].size >= items[right[j]].size
        };
        if take_left {
            let ghost item = l[i as int];
            merged.push(left[i]);
            proof {
                let after = pick(all, merged@);
                assert(after =~= before.push(item));
                assert(l.take(i + 1) =~= l.take(i as int).push(item));
                assert(l.take(i + 1).drop_last() =~= l.take(i as int));
                assert(after.drop_last() =~= before);
                assert forall|k: int| 0 <= k < j implies (#[trigger] r.take(j as int)[k]).size
                    != item.size by {
                    assert(r.take(j as int)[k] == r[k]);
                }
                lemma_of_size_none(r.take(j as int), item.size);
                assert forall|size: u64| #[trigger]
                    of_size(after, size) == of_size(l.take(i + 1), size) + of_size(
                        r.take(j as int),
                        size,
                    ) by {
                    assert(of_size(before, size) == of_size(l.take(i as int), size) + of_size(
                        r.take(j as int),
                        size,
                    ));
                    if size == item.size {
                        assert(of_size(after, size) =~= of_size(l.take(i + 1), size) + of_size(
                            r.take(j as int),
                            size,
                        ));
                    }
                }
                assert forall|a: int, b: int| 0 <= a < b < after.len() implies after[a].size
                    >= after[b].size by {
                    if b < before.len() {
                        assert(before[a].size >= before[b].size);
                    } else {
                        assert(before[a].size >= item.size);
                    }
                }
                assert forall|k: int| 0 <= k < after.len() && i + 1 < left.len() implies (
                #[trigger] after[k]).size >= l[i + 1].size by {
                    assert(l[i as int].size >= l[i + 1].size);
                    if k < before.len() {
                        assert(before[k].size >= item.size);
                    }
                }
                assert forall|k: int| 0 <= k < after.len() && j < right.len() implies (
                #[trigger] after[k]).size >= r[j as int].size by {
                    if k < before.len() {
                        assert(before[k].size >= r[j as int].size);
                    }
                }
                assert forall|k: int| 0 <= k < j && i + 1 < left.len() implies (#[trigger] r[k]).size
                    > l[i + 1].size by {
                    assert(l[i as int].size >= l[i + 1].size);
                }
            }
            i += 1;
        } else {
            let ghost item = r[j as int];
            merged.push(right[j]);
            proof {
                let after = pick(all, merged@);
                assert(after =~= before.push(item));
                assert(r.take(j + 1) =~= r.take(j as int).push(item));
                assert(r.take(j + 1).drop_last() =~= r.take(j as int));
                assert(after.drop_last() =~= before);
                assert forall|size: u64| #[trigger]
                    of_size(after, size) == of_size(l.take(i as int), size) + of_size(
                        r.take(j + 1),
                        size,
                    ) by {
                    assert(of_size(before, size) == of_size(l.take(i as int), size) + of_size(
                        r.take(j as int),
                        size,
                    ));
                    if size == item.size {
                        assert(of_size(after, size) =~= of_size(l.take(i as int), size) + of_size(
                            r.take(j + 1),
                            size,
                        ));
                    }
                }
                assert forall|a: int, b: int| 0 <= a < b < after.len() implies after[a].size
                    >= after[b].size by {
                    if b < before.len() {
                        assert(before[a].size >= before[b].size);
                    } else {
                        assert(before[a].size >= item.size);
                    }
                }
                assert forall|k: int| 0 <= k < after.len() && j + 1 < right.len() implies (
                #[trigger] after[k]).size >= r[j + 1].size by {
                    assert(r[j as int].size >= r[j + 1].size);
                    if k < before.len() {
                        assert(before[k].size >= item.size);
                    }
                }
                assert forall|k: int| 0 <= k < after.len() && i < left.len() implies (
                #[trigger] after[k]).size >= l[i as int].size by {
                    if k < before.len() {
                        assert(before[k].size >= l[i as int].size);
                    }
                }
            }
            j += 1;
        }
    }
    proof {
        assert(l.take(i as int) =~= l);
        assert(r.take(j as int) =~= r);
        assert forall|size: u64| #[trigger]
            of_size(pick(all, merged@), size) == of_size(l + r, size) by {
            lemma_of_size_concat(l, r, size);
        }
    }
    merged
}

/// The places `from` up to `to` of `items`, ranked.
fn rank_range(items: &Vec<Item>, from: usize, to: usize) -> (order: Vec<usize>)
    requires
        from <= to <= items.len(),
    ensures
        in_range(order@, items.len() as int),
        order.len() == to - from,
        is_ranking(
            pick(items.deep_view(), order@),
            items.deep_view().subrange(from as int, to as int),
        ),
    decreases to - from,
{
    let ghost all = items.deep_view();
    if to - from == 0 {
        let order: Vec<usize> = Vec::new();
        assert(pick(all, order@) =~= all.subrange(from as int, to as int));
        order
    } else if to - from == 1 {
        let mut order: Vec<usize> = Vec::new();
        order.push(from);
        assert(pick(all, order@) =~= all.subrange(from as int, to as int));
        order
    } else {
        let middle = from + (to - from) / 2;
        let left = rank_range(items, from, middle);
        let right = rank_range(items, middle, to);
        let merged = merge(items, &left, &right);
        proof {
            let first = all.subrange(from as int, middle as int);
            let second = all.subrange(middle as int, to as int);
            assert(first + second =~= all.subrange(from as int, to as int));
            assert forall|size: u64| #[trigger]
                of_size(pick(all, merged@), size) == of_size(first + second, size) by {
                lemma_of_size_concat(pick(all, left@), pick(all, right@), size);
                lemma_of_size_concat(first, second, size);
                assert(of_size(pick(all, left@), size) == of_size(first, size));
                assert(of_size(pick(all, right@), size) == of_size(second, size));
            }
        }
        merged
    }
}

/// Ranks the items by size, largest first. Items of one size keep the
/// order in which they came.
pub fn sort_by_size(items: &Vec<Item>) -> (ranked: Vec<Item>)
    ensures
        is_ranking(ranked.deep_view(), items.deep_view()),
        ranked.deep_view() == ranking_of(items.deep_view()),
        ranked.len() == items.len(),
{
    let ghost all = items.deep_view();
    let order = rank_range(items, 0, items.len());
    assert(all.subrange(0, items.len() as int) =~= all);
    let mut ranked: Vec<Item> = Vec::new();
    let mut k: usize = 0;
    while k < order.len()
        invariant
            k <= order.len(),
            all == items.deep_view(),
            in_range(order@, items.len() as int),
            ranked.len() == k,
            ranked.deep_view() =~= pick(all, order@).take(k as int),
        decreases order.len() - k,
    {
        let ghost before = ranked.deep_view();
        let copy = items[order[k]].clone();
        assert(copy@ == all[order@[k as int] as int]);
        ranked.push(copy);
        assert(ranked.deep_view() =~= before.push(copy@));
        k += 1;
    }
    assert(pick(all, order@).take(k as int) =~= pick(all, order@));
    proof {
        lemma_ranking_of(ranked.deep_view(), all);
    }
    ranked
}

} // verus!
