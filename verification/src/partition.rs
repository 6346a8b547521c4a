//! Partitions of items into batches, and how they are scored.
use vstd::prelude::*;

use crate::shape::{gather, Rates, Shape};

verus! {

/// The block has a member.
pub open spec fn inhabited(block: Set<usize>) -> bool {
    exists|t: usize| #[trigger] block.contains(t)
}

/// The blocks are nonempty, pairwise disjoint, and make up `whole`.
pub open spec fn splits(parts: Seq<Set<usize>>, whole: Set<usize>) -> bool {
    &&& forall|i: int| 0 <= i < parts.len() ==> inhabited(#[trigger] parts[i])
    &&& forall|i: int, t: usize|
        0 <= i < parts.len() && #[trigger] parts[i].contains(t) ==> whole.contains(t)
    &&& forall|t: usize|
        whole.contains(t) ==> exists|i: int| 0 <= i < parts.len() && #[trigger] parts[i].contains(t)
    &&& forall|i: int, j: int, t: usize|
        0 <= i < parts.len() && 0 <= j < parts.len() && #[trigger] parts[i].contains(t)
            && #[trigger] parts[j].contains(t) ==> i == j
}

/// Every block can still wait until `now` and finish on time.
pub open spec fn feasible(
    rates: Rates,
    items: Map<usize, Shape>,
    parts: Seq<Set<usize>>,
    now: u64,
) -> bool {
    forall|i: int| 0 <= i < parts.len() ==> rates.fits(gather(items, #[trigger] parts[i]), now)
}

/// The machine seconds that demands run as one batch each take together.
pub open spec fn seconds(rates: Rates, shapes: Seq<Shape>) -> nat
    decreases shapes.len(),
{
    if shapes.len() == 0 {
        0
    } else {
        seconds(rates, shapes.drop_last()) + rates.duration(shapes.last().checks)
    }
}

/// Batch count, then machine seconds.
pub open spec fn score(rates: Rates, shapes: Seq<Shape>) -> (nat, nat) {
    (shapes.len(), seconds(rates, shapes))
}

/// Fewer batches, or as many in less time.
pub open spec fn beats(a: (nat, nat), b: (nat, nat)) -> bool {
    a.0 < b.0 || a.0 == b.0 && a.1 < b.1
}

/// The demands of the blocks.
pub open spec fn gathered(items: Map<usize, Shape>, parts: Seq<Set<usize>>) -> Seq<Shape> {
    parts.map_values(|part: Set<usize>| gather(items, part))
}

/// The items of a sequence, by index.
pub open spec fn indexed(shapes: Seq<Shape>) -> Map<usize, Shape> {
    Map::new(|i: usize| i < shapes.len(), |i: usize| shapes[i as int])
}

// Sums of durations.

pub proof fn lemma_seconds_push(rates: Rates, shapes: Seq<Shape>, last: Shape)
    ensures
        seconds(rates, shapes.push(last)) == seconds(rates, shapes) + rates.duration(last.checks),
{
    assert(shapes.push(last).drop_last() =~= shapes);
}

/// A common bound on the blocks bounds the sum.
pub proof fn lemma_seconds_bound(rates: Rates, shapes: Seq<Shape>, most: nat)
    requires
        forall|i: int|
            0 <= i < shapes.len() ==> rates.duration((#[trigger] shapes[i]).checks) <= most,
    ensures
        seconds(rates, shapes) <= shapes.len() * most,
    decreases shapes.len(),
{
    if shapes.len() > 0 {
        let n = shapes.len();
        lemma_seconds_bound(rates, shapes.drop_last(), most);
        assert(n * most == (n - 1) * most + most) by (nonlinear_arith);
    }
}

pub proof fn lemma_seconds_concat(rates: Rates, a: Seq<Shape>, b: Seq<Shape>)
    ensures
        seconds(rates, a + b) == seconds(rates, a) + seconds(rates, b),
    decreases b.len(),
{
    if b.len() == 0 {
        assert(a + b =~= a);
    } else {
        assert((a + b).drop_last() =~= a + b.drop_last());
        lemma_seconds_concat(rates, a, b.drop_last());
    }
}

/// Replacing one block changes the sum by the difference.
pub proof fn lemma_seconds_update(rates: Rates, shapes: Seq<Shape>, i: int, new: Shape)
    requires
        0 <= i < shapes.len(),
    ensures
        seconds(rates, shapes.update(i, new)) + rates.duration(shapes[i].checks) == seconds(
            rates,
            shapes,
        ) + rates.duration(new.checks),
    decreases shapes.len(),
{
    let updated = shapes.update(i, new);
    if i == shapes.len() - 1 {
        assert(updated.drop_last() =~= shapes.drop_last());
    } else {
        assert(updated.drop_last() =~= shapes.drop_last().update(i, new));
        assert(updated.last() == shapes.last());
        lemma_seconds_update(rates, shapes.drop_last(), i, new);
    }
}

/// Taking one block out lowers the sum by its duration.
pub proof fn lemma_seconds_remove(rates: Rates, shapes: Seq<Shape>, i: int)
    requires
        0 <= i < shapes.len(),
    ensures
        seconds(rates, shapes.remove(i)) + rates.duration(shapes[i].checks) == seconds(
            rates,
            shapes,
        ),
    decreases shapes.len(),
{
    let rest = shapes.remove(i);
    if i == shapes.len() - 1 {
        assert(rest =~= shapes.drop_last());
    } else {
        assert(rest.drop_last() =~= shapes.drop_last().remove(i));
        assert(rest.last() == shapes.last());
        lemma_seconds_remove(rates, shapes.drop_last(), i);
    }
}

/// The earliest of the latest starts.
pub open spec fn first_start(rates: Rates, shapes: Seq<Shape>) -> int
    decreases shapes.len(),
{
    if shapes.len() == 0 {
        u64::MAX as int
    } else if rates.latest(shapes.last()) <= first_start(rates, shapes.drop_last()) {
        rates.latest(shapes.last())
    } else {
        first_start(rates, shapes.drop_last())
    }
}

pub proof fn lemma_first_start_remove(rates: Rates, shapes: Seq<Shape>, i: int)
    requires
        0 <= i < shapes.len(),
    ensures
        first_start(rates, shapes) == if rates.latest(shapes[i]) <= first_start(
            rates,
            shapes.remove(i),
        ) {
            rates.latest(shapes[i])
        } else {
            first_start(rates, shapes.remove(i))
        },
    decreases shapes.len(),
{
    let rest = shapes.remove(i);
    if i == shapes.len() - 1 {
        assert(rest =~= shapes.drop_last());
    } else {
        assert(rest.drop_last() =~= shapes.drop_last().remove(i));
        assert(rest.last() == shapes.last());
        lemma_first_start_remove(rates, shapes.drop_last(), i);
    }
}

pub proof fn lemma_first_start(rates: Rates, shapes: Seq<Shape>)
    ensures
        forall|i: int|
            0 <= i < shapes.len() ==> first_start(rates, shapes) <= rates.latest(
                #[trigger] shapes[i],
            ),
        shapes.len() > 0 ==> exists|i: int|
            0 <= i < shapes.len() && first_start(rates, shapes) == rates.latest(
                #[trigger] shapes[i],
            ),
        first_start(rates, shapes) <= u64::MAX,
    decreases shapes.len(),
{
    if shapes.len() > 0 {
        let rest = shapes.drop_last();
        lemma_first_start(rates, rest);
        assert forall|i: int| 0 <= i < shapes.len() implies first_start(rates, shapes)
            <= rates.latest(#[trigger] shapes[i]) by {
            if i < rest.len() {
                assert(rest[i] == shapes[i]);
            }
        }
        if rates.latest(shapes.last()) <= first_start(rates, rest) {
            assert(shapes[shapes.len() - 1] == shapes.last());
        } else if rest.len() > 0 {
            let i = choose|i: int|
                0 <= i < rest.len() && first_start(rates, rest) == rates.latest(#[trigger] rest[i]);
            assert(shapes[i] == rest[i]);
        } else {
            assert(rates.latest(shapes.last()) <= u64::MAX);
        }
    }
}

// Partitions.

/// The blocks of a finite set are finite.
pub proof fn lemma_splits_finite(parts: Seq<Set<usize>>, whole: Set<usize>)
    requires
        splits(parts, whole),
        whole.finite(),
    ensures
        forall|i: int| 0 <= i < parts.len() ==> (#[trigger] parts[i]).finite() && parts[i].len() > 0,
{
    assert forall|i: int| 0 <= i < parts.len() implies (#[trigger] parts[i]).finite()
        && parts[i].len() > 0 by {
        assert(parts[i].subset_of(whole)) by {
            assert forall|t: usize| parts[i].contains(t) implies whole.contains(t) by {}
        }
        vstd::set_lib::lemma_set_subset_finite(whole, parts[i]);
        let t = choose|t: usize| #[trigger] parts[i].contains(t);
        assert(parts[i].contains(t));
    }
}

/// Taking one block out leaves a partition of the rest.
pub proof fn lemma_splits_remove(parts: Seq<Set<usize>>, whole: Set<usize>, i: int)
    requires
        splits(parts, whole),
        0 <= i < parts.len(),
    ensures
        splits(parts.remove(i), whole.difference(parts[i])),
{
    let rest = parts.remove(i);
    let left = whole.difference(parts[i]);
    assert forall|j: int| 0 <= j < rest.len() implies inhabited(#[trigger] rest[j]) by {
        let k = if j < i {
            j
        } else {
            j + 1
        };
        assert(rest[j] == parts[k]);
    }
    assert forall|j: int, t: usize|
        0 <= j < rest.len() && #[trigger] rest[j].contains(t) implies left.contains(t) by {
        let k = if j < i {
            j
        } else {
            j + 1
        };
        assert(parts[k].contains(t));
        assert(k != i);
    }
    assert forall|t: usize| left.contains(t) implies exists|j: int|
        0 <= j < rest.len() && #[trigger] rest[j].contains(t) by {
        let k = choose|k: int| 0 <= k < parts.len() && #[trigger] parts[k].contains(t);
        let j = if k < i {
            k
        } else {
            k - 1
        };
        assert(rest[j].contains(t));
    }
    assert forall|j1: int, j2: int, t: usize|
        0 <= j1 < rest.len() && 0 <= j2 < rest.len() && #[trigger] rest[j1].contains(t)
            && #[trigger] rest[j2].contains(t) implies j1 == j2 by {
        let k1 = if j1 < i {
            j1
        } else {
            j1 + 1
        };
        let k2 = if j2 < i {
            j2
        } else {
            j2 + 1
        };
        assert(parts[k1].contains(t));
        assert(parts[k2].contains(t));
    }
}

/// A further block makes a partition of a larger set.
pub proof fn lemma_splits_insert(
    parts: Seq<Set<usize>>,
    whole: Set<usize>,
    i: int,
    block: Set<usize>,
)
    requires
        splits(parts, whole),
        0 <= i <= parts.len(),
        inhabited(block),
        whole.disjoint(block),
    ensures
        splits(parts.insert(i, block), whole.union(block)),
{
    let after = parts.insert(i, block);
    let all = whole.union(block);
    assert forall|j: int| 0 <= j < after.len() implies inhabited(#[trigger] after[j]) by {
        if j < i {
            assert(after[j] == parts[j]);
        } else if j > i {
            assert(after[j] == parts[j - 1]);
        }
    }
    assert forall|j: int, t: usize|
        0 <= j < after.len() && #[trigger] after[j].contains(t) implies all.contains(t) by {
        if j < i {
            assert(parts[j].contains(t));
        } else if j > i {
            assert(parts[j - 1].contains(t));
        }
    }
    assert forall|t: usize| all.contains(t) implies exists|j: int|
        0 <= j < after.len() && #[trigger] after[j].contains(t) by {
        if whole.contains(t) {
            let k = choose|k: int| 0 <= k < parts.len() && #[trigger] parts[k].contains(t);
            let j = if k < i {
                k
            } else {
                k + 1
            };
            assert(after[j].contains(t));
        } else {
            assert(after[i].contains(t));
        }
    }
    assert forall|j: int, k: int, t: usize|
        0 <= j < after.len() && 0 <= k < after.len() && #[trigger] after[j].contains(t)
            && #[trigger] after[k].contains(t) implies j == k by {
        let a = if j < i {
            j
        } else {
            j - 1
        };
        let b = if k < i {
            k
        } else {
            k - 1
        };
        if j != i {
            assert(parts[a].contains(t));
            assert(whole.contains(t));
        }
        if k != i {
            assert(parts[b].contains(t));
            assert(whole.contains(t));
        }
    }
}

/// A block that takes in a new item makes a partition of a larger set.
pub proof fn lemma_splits_grow(parts: Seq<Set<usize>>, whole: Set<usize>, i: int, x: usize)
    requires
        splits(parts, whole),
        0 <= i < parts.len(),
        !whole.contains(x),
    ensures
        splits(parts.update(i, parts[i].insert(x)), whole.insert(x)),
{
    let after = parts.update(i, parts[i].insert(x));
    let all = whole.insert(x);
    assert forall|j: int| 0 <= j < after.len() implies inhabited(#[trigger] after[j]) by {
        assert(inhabited(parts[j]));
        let t = choose|t: usize| #[trigger] parts[j].contains(t);
        assert(after[j].contains(t));
    }
    assert forall|j: int, t: usize|
        0 <= j < after.len() && #[trigger] after[j].contains(t) implies all.contains(t) by {
        if t != x {
            assert(parts[j].contains(t));
        }
    }
    assert forall|t: usize| all.contains(t) implies exists|j: int|
        0 <= j < after.len() && #[trigger] after[j].contains(t) by {
        if t == x {
            assert(after[i].contains(t));
        } else {
            let j = choose|j: int| 0 <= j < parts.len() && #[trigger] parts[j].contains(t);
            assert(after[j].contains(t));
        }
    }
    assert forall|j: int, k: int, t: usize|
        0 <= j < after.len() && 0 <= k < after.len() && #[trigger] after[j].contains(t)
            && #[trigger] after[k].contains(t) implies j == k by {
        if t == x {
            assert(!parts[j].contains(t) && !parts[k].contains(t));
        } else {
            assert(parts[j].contains(t) && parts[k].contains(t));
        }
    }
}

/// A partition of a finite set has no more blocks than the set has elements.
pub proof fn lemma_splits_len(parts: Seq<Set<usize>>, whole: Set<usize>)
    requires
        splits(parts, whole),
        whole.finite(),
    ensures
        parts.len() <= whole.len(),
    decreases parts.len(),
{
    if parts.len() > 0 {
        let i = parts.len() - 1;
        lemma_splits_finite(parts, whole);
        lemma_splits_remove(parts, whole, i);
        let left = whole.difference(parts[i]);
        lemma_splits_len(parts.remove(i), left);
        let t = choose|t: usize| #[trigger] parts[i].contains(t);
        assert(whole.contains(t) && !left.contains(t));
        assert(left.subset_of(whole.remove(t)));
        vstd::set_lib::lemma_len_subset(left, whole.remove(t));
    }
}

} // verus!
