//! Ranking items by size, largest first.

use crate::scanner::ItemView;
use vstd::prelude::*;
use vstd::seq_lib::{to_multiset_build, to_multiset_insert};

verus! {

/// The smaller of two numbers.
pub open spec fn lesser(a: int, b: int) -> int {
    if a < b {
        a
    } else {
        b
    }
}

/// The sizes never grow from one item to the next.
pub open spec fn sorted_down(r: Seq<ItemView>) -> bool {
    forall|i: int, j: int| 0 <= i < j < r.len() ==> r[i].size >= r[j].size
}

/// Where an item of `size` bytes goes into a ranking: behind every item that
/// is not smaller.
pub open spec fn rank_place(r: Seq<ItemView>, size: u64) -> int
    decreases r.len(),
{
    if r.len() > 0 && r.last().size < size {
        rank_place(r.drop_last(), size)
    } else {
        r.len() as int
    }
}

/// The ranking `r` with the item `x` put in its place.
pub open spec fn placed(r: Seq<ItemView>, x: ItemView) -> Seq<ItemView> {
    r.insert(rank_place(r, x.size), x)
}

/// The items by size, largest first; items of one size keep the order they
/// came in.
pub open spec fn ranked(items: Seq<ItemView>) -> Seq<ItemView>
    decreases items.len(),
{
    if items.len() == 0 {
        Seq::empty()
    } else {
        placed(ranked(items.drop_last()), items.last())
    }
}

proof fn lemma_rank_place(r: Seq<ItemView>, size: u64)
    ensures
        0 <= rank_place(r, size) <= r.len(),
        forall|j: int| rank_place(r, size) <= j < r.len() ==> (#[trigger] r[j]).size < size,
        rank_place(r, size) > 0 ==> r[rank_place(r, size) - 1].size >= size,
    decreases r.len(),
{
    if r.len() > 0 && r.last().size < size {
        lemma_rank_place(r.drop_last(), size);
        assert forall|j: int| rank_place(r, size) <= j < r.len() implies (#[trigger] r[j]).size
            < size by {
            if j < r.len() - 1 {
                assert(r.drop_last()[j] == r[j]);
            }
        }
    }
}

proof fn lemma_placed_sorted(r: Seq<ItemView>, x: ItemView)
    requires
        sorted_down(r),
    ensures
        sorted_down(placed(r, x)),
        placed(r, x).len() == r.len() + 1,
{
    lemma_rank_place(r, x.size);
}

/// A ranking has every size in falling order and as many items as it was
/// made from.
pub proof fn lemma_ranked_sorted(items: Seq<ItemView>)
    ensures
        sorted_down(ranked(items)),
        ranked(items).len() == items.len(),
    decreases items.len(),
{
    if items.len() > 0 {
        lemma_ranked_sorted(items.drop_last());
        lemma_placed_sorted(ranked(items.drop_last()), items.last());
    }
}

/// In a sorted ranking cut to its first `k` items, an item goes where it
/// goes in the whole, or to the end.
proof fn lemma_rank_place_cut(r: Seq<ItemView>, k: int, size: u64)
    requires
        sorted_down(r),
        0 <= k <= r.len(),
    ensures
        rank_place(r.take(k), size) == if rank_place(r, size) < k {
            rank_place(r, size)
        } else {
            k
        },
    decreases r.len() - k,
{
    lemma_rank_place(r, size);
    lemma_rank_place(r.take(k), size);
    let c = r.take(k);
    let pc = rank_place(c, size);
    if pc < k {
        assert(c[pc].size < size);
    }
}

/// The first `cap` items of a ranking that got one more item can be had
/// from its own first `cap` items.
pub proof fn lemma_pool_step(r: Seq<ItemView>, x: ItemView, cap: int)
    requires
        sorted_down(r),
        0 <= cap,
    ensures
        ({
            let cut = r.take(lesser(cap, r.len() as int));
            let p = rank_place(cut, x.size);
            let want = placed(r, x).take(lesser(cap, (r.len() + 1) as int));
            &&& 0 <= p <= cut.len()
            &&& p >= cap ==> want == cut
            &&& p < cap ==> want == cut.insert(p, x).take(lesser(cap, (cut.len() + 1) as int))
        }),
{
    let k = lesser(cap, r.len() as int);
    lemma_rank_place_cut(r, k, x.size);
    lemma_rank_place(r, x.size);
}

/// A ranking holds the items it was made from, each as often as it came.
pub proof fn lemma_ranked_same_items(items: Seq<ItemView>)
    ensures
        ranked(items).to_multiset() == items.to_multiset(),
    decreases items.len(),
{
    if items.len() == 0 {
        assert(ranked(items) =~= items);
    } else {
        let before = items.drop_last();
        lemma_ranked_same_items(before);
        lemma_rank_place(ranked(before), items.last().size);
        to_multiset_insert(ranked(before), rank_place(ranked(before), items.last().size), items.last());
        to_multiset_build(before, items.last());
        assert(before.push(items.last()) =~= items);
    }
}

/// The items of `size` bytes, in their order.
pub open spec fn of_size(items: Seq<ItemView>, size: u64) -> Seq<ItemView> {
    items.filter(|i: ItemView| i.size == size)
}

proof fn lemma_of_size_smaller(r: Seq<ItemView>, size: u64)
    requires
        forall|j: int| 0 <= j < r.len() ==> (#[trigger] r[j]).size != size,
    ensures
        of_size(r, size) == Seq::<ItemView>::empty(),
    decreases r.len(),
{
    reveal(Seq::filter);
    if r.len() > 0 {
        lemma_of_size_smaller(r.drop_last(), size);
    }
}

/// Ranking is stable: the items of any one size stand in a ranking in the
/// order in which they came.
pub proof fn law_ranked_stable(items: Seq<ItemView>, size: u64)
    ensures
        of_size(ranked(items), size) == of_size(items, size),
    decreases items.len(),
{
    reveal(Seq::filter);
    if items.len() > 0 {
        let before = items.drop_last();
        let x = items.last();
        let r = ranked(before);
        let p = rank_place(r, x.size);
        law_ranked_stable(before, size);
        lemma_rank_place(r, x.size);
        let head = r.subrange(0, p);
        let rest = r.subrange(p, r.len() as int);
        assert(r =~= head + rest);
        assert(head.push(x).drop_last() =~= head);
        if x.size == size {
            lemma_of_size_smaller(rest, size);
        }
    }
}

} // verus!
