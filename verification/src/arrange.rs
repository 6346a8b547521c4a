//! Sorting positions by a comparison.
use vstd::prelude::*;

use crate::listing::{lemma_listing_unique, lemma_upto, listing, lists, orders, upto};

verus! {

/// Where `item` belongs in `order`, the positions sorted so far.
fn slot<F: Fn(usize, usize) -> bool>(
    order: &Vec<usize>,
    item: usize,
    before: &F,
    Ghost(lt): Ghost<spec_fn(usize, usize) -> bool>,
) -> (place: usize)
    requires
        orders(lt, upto((item + 1) as nat)),
        lists(order@, upto(item as nat), lt),
        forall|a: usize, b: usize| a <= item && b <= item ==> #[trigger] call_requires(before, (a, b)),
        forall|a: usize, b: usize, r: bool|
            a <= item && b <= item && #[trigger] call_ensures(before, (a, b), r) ==> r == lt(a, b),
    ensures
        place <= order.len(),
        forall|i: int| 0 <= i < place ==> lt(#[trigger] order[i], item),
        forall|i: int| place <= i < order.len() ==> lt(item, #[trigger] order[i]),
{
    proof {
        assert forall|i: int| 0 <= i < order.len() implies #[trigger] order@[i] < item by {
            assert(order@.to_set().contains(order@[i]));
        }
    }
    let mut low: usize = 0;
    let mut high: usize = order.len();
    while low < high
        invariant
            low <= high <= order.len(),
            orders(lt, upto((item + 1) as nat)),
            lists(order@, upto(item as nat), lt),
            forall|i: int| 0 <= i < order.len() ==> #[trigger] order@[i] < item,
            forall|a: usize, b: usize|
                a <= item && b <= item ==> #[trigger] call_requires(before, (a, b)),
            forall|a: usize, b: usize, r: bool|
                a <= item && b <= item && #[trigger] call_ensures(before, (a, b), r) ==> r == lt(
                    a,
                    b,
                ),
            forall|i: int| 0 <= i < low ==> lt(#[trigger] order@[i], item),
            forall|i: int| high <= i < order.len() ==> lt(item, #[trigger] order@[i]),
        decreases high - low,
    {
        // Arrivals are mostly in order already: look at the end first.
        let mid: usize = if high == order.len() {
            high - 1
        } else {
            low + (high - low) / 2
        };
        let other: usize = order[mid];
        if before(other, item) {
            proof {
                assert forall|i: int| 0 <= i < mid + 1 implies lt(#[trigger] order@[i], item) by {
                    if i < mid {
                        assert(lt(order@[i], order@[mid as int]));
                        assert(upto((item + 1) as nat).contains(order@[i]));
                        assert(upto((item + 1) as nat).contains(order@[mid as int]));
                        assert(upto((item + 1) as nat).contains(item));
                    }
                }
            }
            low = mid + 1;
        } else {
            proof {
                assert(upto((item + 1) as nat).contains(other));
                assert(upto((item + 1) as nat).contains(item));
                assert(lt(other, item) || lt(item, other));
                assert forall|i: int| mid <= i < order.len() implies lt(
                    item,
                    #[trigger] order@[i],
                ) by {
                    if mid < i {
                        assert(lt(order@[mid as int], order@[i]));
                        assert(upto((item + 1) as nat).contains(order@[i]));
                    }
                }
            }
            high = mid;
        }
    }
    low
}

/// The positions `0..n` sorted by `before`, which decides `lt`.
pub(crate) fn arrange<F: Fn(usize, usize) -> bool>(
    n: usize,
    before: F,
    Ghost(lt): Ghost<spec_fn(usize, usize) -> bool>,
) -> (order: Vec<usize>)
    requires
        orders(lt, upto(n as nat)),
        forall|a: usize, b: usize| a < n && b < n ==> #[trigger] call_requires(before, (a, b)),
        forall|a: usize, b: usize, r: bool|
            a < n && b < n && #[trigger] call_ensures(before, (a, b), r) ==> r == lt(a, b),
    ensures
        order@ == listing(upto(n as nat), lt),
        lists(order@, upto(n as nat), lt),
        order@.no_duplicates(),
        order.len() == n,
{
    let mut order: Vec<usize> = Vec::new();
    let mut item: usize = 0;
    assert(order@.to_set() =~= upto(0));
    while item < n
        invariant
            item <= n,
            orders(lt, upto(n as nat)),
            lists(order@, upto(item as nat), lt),
            forall|a: usize, b: usize| a < n && b < n ==> #[trigger] call_requires(before, (a, b)),
            forall|a: usize, b: usize, r: bool|
                a < n && b < n && #[trigger] call_ensures(before, (a, b), r) ==> r == lt(a, b),
        decreases n - item,
    {
        proof {
            let smaller = upto((item + 1) as nat);
            assert forall|x: usize| smaller.contains(x) implies upto(n as nat).contains(x) by {}
        }
        let place: usize = slot(&order, item, &before, Ghost(lt));
        let ghost old_order = order@;
        order.insert(place, item);
        proof {
            let q = order@;
            assert forall|x: usize| upto((item + 1) as nat).contains(x) implies q.to_set().contains(
                x,
            ) by {
                if x == item {
                    assert(q[place as int] == x);
                } else {
                    assert(old_order.to_set().contains(x));
                    let k = choose|k: int| 0 <= k < old_order.len() && old_order[k] == x;
                    if k < place {
                        assert(q[k] == x);
                    } else {
                        assert(q[k + 1] == x);
                    }
                }
            }
            assert forall|x: usize| q.to_set().contains(x) implies upto(
                (item + 1) as nat,
            ).contains(x) by {
                let k = choose|k: int| 0 <= k < q.len() && q[k] == x;
                if k < place {
                    assert(old_order[k] == x);
                    assert(old_order.to_set().contains(x));
                } else if k > place {
                    assert(old_order[k - 1] == x);
                    assert(old_order.to_set().contains(x));
                }
            }
            assert forall|i: int, j: int| 0 <= i < j < q.len() implies lt(
                #[trigger] q[i],
                #[trigger] q[j],
            ) by {
                let a = if i < place {
                    i
                } else {
                    i - 1
                };
                let b = if j < place {
                    j
                } else {
                    j - 1
                };
                if i != place {
                    assert(q[i] == old_order[a]);
                }
                if j != place {
                    assert(q[j] == old_order[b]);
                }
            }
        }
        item = item + 1;
    }
    proof {
        lemma_upto(n as nat);
        lemma_listing_unique(order@, upto(n as nat), lt);
        crate::listing::lemma_listing(upto(n as nat), lt);
    }
    order
}

} // verus!
