//! The order in which a treemap draws its rectangles.

use crate::sort::{is_order_of, law_order_by_number, num_keys, order_by_number};
use vstd::prelude::*;

verus! {

/// The first `n` of `order` whose sizes are positive.
pub open spec fn positive_of(order: Seq<usize>, sizes: Seq<i64>, n: int) -> Seq<usize>
    decreases n,
{
    if n <= 0 {
        Seq::empty()
    } else if sizes[order[n - 1] as int] > 0 {
        positive_of(order, sizes, n - 1).push(order[n - 1])
    } else {
        positive_of(order, sizes, n - 1)
    }
}

/// The items that are drawn, the largest first: those whose sizes are positive.
pub fn drawn_order(sizes: &Vec<i64>) -> (r: Vec<usize>)
    ensures
        exists|order: Seq<usize>| #[trigger]
            is_order_of(order, num_keys(sizes@), true) && r@ == positive_of(
                order,
                sizes@,
                sizes.len() as int,
            ),
{
    let order = order_by_number(sizes, true);
    let mut out: Vec<usize> = Vec::new();
    let mut i: usize = 0;
    while i < order.len()
        invariant
            i <= order.len(),
            order.len() == sizes.len(),
            forall|p: int| 0 <= p < order.len() ==> #[trigger] order@[p] < sizes.len(),
            out@ == positive_of(order@, sizes@, i as int),
        decreases order.len() - i,
    {
        let k: usize = order[i];
        assert(order@[i as int] < sizes.len());
        if sizes[k] > 0 {
            out.push(k);
        }
        i += 1;
    }
    assert(is_order_of(order@, num_keys(sizes@), true));
    out
}

/// Nothing without a size is drawn.
pub proof fn law_only_positive_drawn(order: Seq<usize>, sizes: Seq<i64>, n: int, i: int)
    requires
        0 <= i < positive_of(order, sizes, n).len(),
    ensures
        sizes[positive_of(order, sizes, n)[i] as int] > 0,
    decreases n,
{
    if n > 0 && i < positive_of(order, sizes, n - 1).len() {
        law_only_positive_drawn(order, sizes, n - 1, i);
    }
}

/// Whether item `x` is drawn before item `y`: it is larger, or as large and came before.
pub open spec fn is_drawn_before(sizes: Seq<i64>, x: usize, y: usize) -> bool {
    sizes[x as int] > sizes[y as int] || (sizes[x as int] == sizes[y as int] && x < y)
}

/// Everything with a size is drawn, once, the largest first; what is as large as another
/// stays behind it if it came behind it.
pub proof fn law_drawn_by_size(r: Seq<usize>, sizes: Seq<i64>, order: Seq<usize>)
    requires
        is_order_of(order, num_keys(sizes), true),
        r == positive_of(order, sizes, sizes.len() as int),
        sizes.len() <= usize::MAX,
    ensures
        forall|i: usize| (i as int) < sizes.len() && sizes[i as int] > 0 ==> #[trigger] r.contains(i),
        forall|p: int, q: int|
            0 <= p < q < r.len() ==> is_drawn_before(sizes, #[trigger] r[p], #[trigger] r[q]),
{
    law_order_by_number(order, sizes, true);
    lemma_positive(order, sizes, sizes.len() as int);
    assert forall|i: usize| (i as int) < sizes.len() && sizes[i as int] > 0 implies #[trigger] r.contains(
        i,
    ) by {
        assert(order.contains(i));
        let k = choose|k: int| 0 <= k < order.len() && order[k] == i;
        assert(sizes[order[k] as int] > 0);
    }
}

proof fn lemma_positive(order: Seq<usize>, sizes: Seq<i64>, n: int)
    requires
        0 <= n <= order.len(),
        forall|p: int, q: int|
            0 <= p < q < order.len() ==> is_drawn_before(
                sizes,
                #[trigger] order[p],
                #[trigger] order[q],
            ),
    ensures
        forall|k: int|
            0 <= k < n && sizes[#[trigger] order[k] as int] > 0 ==> positive_of(
                order,
                sizes,
                n,
            ).contains(order[k]),
        forall|p: int|
            0 <= p < positive_of(order, sizes, n).len() ==> exists|k: int|
                0 <= k < n && #[trigger] order[k] == #[trigger] positive_of(order, sizes, n)[p],
        forall|p: int, q: int|
            0 <= p < q < positive_of(order, sizes, n).len() ==> is_drawn_before(
                sizes,
                #[trigger] positive_of(order, sizes, n)[p],
                #[trigger] positive_of(order, sizes, n)[q],
            ),
    decreases n,
{
    if n > 0 {
        lemma_positive(order, sizes, n - 1);
        let before = positive_of(order, sizes, n - 1);
        let now = positive_of(order, sizes, n);
        assert forall|k: int| 0 <= k < n && sizes[#[trigger] order[k] as int] > 0 implies now.contains(
            order[k],
        ) by {
            if k < n - 1 {
                let i = choose|i: int| 0 <= i < before.len() && before[i] == order[k];
                assert(now[i] == order[k]);
            } else {
                assert(now[before.len() as int] == order[k]);
            }
        }
        assert forall|p: int| 0 <= p < now.len() implies exists|k: int|
            0 <= k < n && #[trigger] order[k] == #[trigger] now[p] by {
            if p < before.len() {
                assert(now[p] == before[p]);
                let k = choose|k: int| 0 <= k < n - 1 && #[trigger] order[k] == before[p];
                assert(order[k] == now[p]);
            } else {
                assert(order[n - 1] == now[p]);
            }
        }
        assert forall|p: int, q: int| 0 <= p < q < now.len() implies is_drawn_before(
            sizes,
            #[trigger] now[p],
            #[trigger] now[q],
        ) by {
            assert(now[p] == before[p]);
            if q < before.len() {
                assert(now[q] == before[q]);
            } else {
                let k = choose|k: int| 0 <= k < n - 1 && #[trigger] order[k] == before[p];
                assert(order[k] == now[p] && order[n - 1] == now[q]);
            }
        }
    }
}

} // verus!
