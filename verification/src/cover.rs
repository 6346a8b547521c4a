//! The best partition of a small pool: what the exhaustive search finds.
use vstd::prelude::*;

use crate::listing::upto;
use crate::masks::{
    anchor, bit, lemma_anchor, lemma_mask_empty, lemma_mask_inhabited, lemma_mask_minus,
    lemma_mask_of, lemma_mask_step, mask_of, mask_set, within,
};
use crate::partition::{
    feasible, first_start, gathered, indexed, inhabited, lemma_first_start_remove,
    lemma_seconds_remove, lemma_splits_insert, lemma_splits_remove, seconds, splits,
};
use crate::shape::{gather, Rates, Shape};

verus! {

/// A partition into subsets, with its cost and its first launch.
pub struct Cover {
    pub groups: Seq<u32>,
    pub seconds: nat,
    pub first_launch: u64,
}

/// What the patterns in a mask ask for together.
pub open spec fn mask_shape(s: Seq<Shape>, mask: u32) -> Shape {
    gather(indexed(s), mask_set(mask))
}

/// Fewer groups, then fewer seconds, then more time before the first launch.
pub open spec fn outranks(a: (nat, nat, int), b: (nat, nat, int)) -> bool {
    ||| a.0 < b.0
    ||| a.0 == b.0 && a.1 < b.1
    ||| a.0 == b.0 && a.1 == b.1 && a.2 > b.2
}

pub open spec fn rank(cover: Cover) -> (nat, nat, int) {
    (cover.groups.len(), cover.seconds, cover.first_launch as int)
}

/// Lexicographic order of sequences.
pub open spec fn lex_lt(a: Seq<u32>, b: Seq<u32>) -> bool
    decreases a.len(),
{
    if b.len() == 0 {
        false
    } else if a.len() == 0 {
        true
    } else if a[0] != b[0] {
        a[0] < b[0]
    } else {
        lex_lt(a.drop_first(), b.drop_first())
    }
}

/// The better of the incumbent and a new cover; the incumbent if they tie.
pub open spec fn better(old: Option<Cover>, new: Cover) -> Cover {
    match old {
        None => new,
        Some(old) => if outranks(rank(new), rank(old)) || rank(new) == rank(old) && lex_lt(
            new.groups,
            old.groups,
        ) {
            new
        } else {
            old
        },
    }
}

/// `x` put into its place among increasing numbers.
pub open spec fn put(groups: Seq<u32>, x: u32) -> Seq<u32>
    decreases groups.len(),
{
    if groups.len() == 0 || groups.last() <= x {
        groups.push(x)
    } else {
        put(groups.drop_last(), x).push(groups.last())
    }
}

/// A cover of the rest, extended by one group.
pub open spec fn extend(rates: Rates, s: Seq<Shape>, tail: Cover, part: u32) -> Cover {
    let shape = mask_shape(s, part);
    Cover {
        groups: put(tail.groups, part),
        seconds: tail.seconds + rates.duration(shape.checks),
        first_launch: if rates.latest(shape) <= tail.first_launch {
            rates.latest(shape) as u64
        } else {
            tail.first_launch
        },
    }
}

/// The group `part` of `mask` holds the anchor and can still wait until `now`.
pub open spec fn eligible(rates: Rates, now: u64, s: Seq<Shape>, mask: u32, part: u32) -> bool {
    bit(part, anchor(mask)) && rates.fits(mask_shape(s, part), now)
}

/// The best cover of `mask`. Every partition has exactly one group containing the
/// anchor, so only those groups are tried, each with the best cover of the rest.
pub open spec fn best(rates: Rates, now: u64, s: Seq<Shape>, mask: u32) -> Option<Cover>
    decreases mask, 0x1_0000_0000int,
{
    if mask == 0 {
        Some(Cover { groups: Seq::empty(), seconds: 0, first_launch: u64::MAX })
    } else {
        scan(rates, now, s, mask, mask, None)
    }
}

/// The best of the incumbent and the covers of `mask` whose anchor group is `part` or
/// a smaller mask.
pub open spec fn scan(
    rates: Rates,
    now: u64,
    s: Seq<Shape>,
    mask: u32,
    part: u32,
    found: Option<Cover>,
) -> Option<Cover>
    decreases mask, part as int,
{
    if part == 0 || !within(part, mask) {
        found
    } else {
        proof {
            lemma_mask_minus(mask, part);
            lemma_mask_step(mask, part);
        }
        let tail = best(rates, now, s, mask ^ part);
        scan(
            rates,
            now,
            s,
            mask,
            (part - 1) as u32 & mask,
            if eligible(rates, now, s, mask, part) && tail is Some {
                Some(better(found, extend(rates, s, tail->0, part)))
            } else {
                found
            },
        )
    }
}

pub open spec fn mask_sets(groups: Seq<u32>) -> Seq<Set<usize>> {
    groups.map_values(|mask: u32| mask_set(mask))
}

/// What the groups of a cover ask for.
pub open spec fn cover_shapes(s: Seq<Shape>, groups: Seq<u32>) -> Seq<Shape> {
    gathered(indexed(s), mask_sets(groups))
}

/// A cover is a feasible partition of `mask` that knows its cost and its first launch.
pub open spec fn good(rates: Rates, now: u64, s: Seq<Shape>, mask: u32, cover: Cover) -> bool {
    &&& forall|i: int, j: int|
        0 <= i < j < cover.groups.len() ==> #[trigger] cover.groups[i] < #[trigger] cover.groups[j]
    &&& forall|i: int|
        0 <= i < cover.groups.len() ==> (#[trigger] cover.groups[i]) != 0 && within(
            cover.groups[i],
            mask,
        )
    &&& splits(mask_sets(cover.groups), mask_set(mask))
    &&& feasible(rates, indexed(s), mask_sets(cover.groups), now)
    &&& cover.seconds == seconds(rates, cover_shapes(s, cover.groups))
    &&& cover.first_launch == first_start(rates, cover_shapes(s, cover.groups))
    &&& cover.seconds <= mask * u64::MAX
    &&& cover.groups.len() <= mask
}

pub open spec fn good_or_none(
    rates: Rates,
    now: u64,
    s: Seq<Shape>,
    mask: u32,
    cover: Option<Cover>,
) -> bool {
    cover matches Some(c) ==> good(rates, now, s, mask, c)
}

/// Where `put` puts a number.
pub open spec fn spot(groups: Seq<u32>, x: u32) -> int
    decreases groups.len(),
{
    if groups.len() == 0 || groups.last() <= x {
        groups.len() as int
    } else {
        spot(groups.drop_last(), x)
    }
}

pub proof fn lemma_put(groups: Seq<u32>, x: u32)
    requires
        forall|i: int, j: int|
            0 <= i < j < groups.len() ==> #[trigger] groups[i] < #[trigger] groups[j],
    ensures
        0 <= spot(groups, x) <= groups.len(),
        put(groups, x) == groups.insert(spot(groups, x), x),
        forall|i: int| 0 <= i < spot(groups, x) ==> #[trigger] groups[i] <= x,
        forall|i: int| spot(groups, x) <= i < groups.len() ==> x < #[trigger] groups[i],
    decreases groups.len(),
{
    if groups.len() > 0 && groups.last() > x {
        let rest = groups.drop_last();
        lemma_put(rest, x);
        assert(put(groups, x) =~= groups.insert(spot(groups, x), x));
        assert forall|i: int| 0 <= i < spot(groups, x) implies #[trigger] groups[i] <= x by {
            assert(rest[i] == groups[i]);
        }
        assert forall|i: int| spot(groups, x) <= i < groups.len() implies x
            < #[trigger] groups[i] by {
            if i < rest.len() {
                assert(rest[i] == groups[i]);
            }
        }
    } else {
        assert(put(groups, x) =~= groups.insert(spot(groups, x), x));
        assert forall|i: int| 0 <= i < spot(groups, x) implies #[trigger] groups[i] <= x by {
            if i < groups.len() - 1 {
                assert(groups[i] < groups[groups.len() - 1]);
            }
        }
    }
}

/// Only one place keeps the numbers increasing.
pub proof fn lemma_put_at(groups: Seq<u32>, x: u32, p: int)
    requires
        forall|i: int, j: int|
            0 <= i < j < groups.len() ==> #[trigger] groups[i] < #[trigger] groups[j],
        0 <= p <= groups.len(),
        forall|i: int| 0 <= i < p ==> #[trigger] groups[i] <= x,
        forall|i: int| p <= i < groups.len() ==> x < #[trigger] groups[i],
    ensures
        put(groups, x) == groups.insert(p, x),
{
    lemma_put(groups, x);
    let q = spot(groups, x);
    if p < q {
        assert(groups[p] <= x);
    } else if q < p {
        assert(groups[q] <= x);
    }
}

pub proof fn lemma_extend_good(
    rates: Rates,
    now: u64,
    s: Seq<Shape>,
    mask: u32,
    part: u32,
    tail: Cover,
)
    requires
        part != 0,
        within(part, mask),
        good(rates, now, s, mask ^ part, tail),
        rates.fits(mask_shape(s, part), now),
    ensures
        good(rates, now, s, mask, extend(rates, s, tail, part)),
{
    let rest = mask ^ part;
    let cover = extend(rates, s, tail, part);
    let p = spot(tail.groups, part);
    lemma_mask_minus(mask, part);
    lemma_put(tail.groups, part);
    lemma_mask_inhabited(part);
    let parts = mask_sets(tail.groups);
    let after = mask_sets(cover.groups);
    assert(after =~= parts.insert(p, mask_set(part)));
    assert(mask_set(rest).disjoint(mask_set(part)));
    lemma_splits_insert(parts, mask_set(rest), p, mask_set(part));
    assert(mask_set(rest).union(mask_set(part)) =~= mask_set(mask));
    assert forall|i: int| 0 <= i < after.len() implies rates.fits(
        gather(indexed(s), #[trigger] after[i]),
        now,
    ) by {
        if i < p {
            assert(after[i] == parts[i]);
        } else if i > p {
            assert(after[i] == parts[i - 1]);
        }
    }
    let shapes = cover_shapes(s, cover.groups);
    assert(shapes.remove(p) =~= cover_shapes(s, tail.groups));
    assert(shapes[p] == mask_shape(s, part));
    lemma_seconds_remove(rates, shapes, p);
    lemma_first_start_remove(rates, shapes, p);
    assert forall|i: int, j: int| 0 <= i < j < cover.groups.len() implies #[trigger] cover.groups[i]
        < #[trigger] cover.groups[j] by {
        let a = if i < p {
            i
        } else {
            i - 1
        };
        let b = if j < p {
            j
        } else {
            j - 1
        };
        if i != p {
            assert(cover.groups[i] == tail.groups[a]);
        }
        if j != p {
            assert(cover.groups[j] == tail.groups[b]);
        }
        if j == p {
            if tail.groups[a] == part {
                // The part is not among the groups of the rest.
                assert(within(tail.groups[a], rest));
                lemma_not_within_rest(mask, part);
            }
        }
    }
    assert forall|i: int| 0 <= i < cover.groups.len() implies (#[trigger] cover.groups[i]) != 0
        && within(cover.groups[i], mask) by {
        let a = if i < p {
            i
        } else {
            i - 1
        };
        if i != p {
            let g = tail.groups[a];
            assert(cover.groups[i] == g);
            assert(within(g, rest));
            assert(g & mask == g) by (bit_vector)
                requires
                    g & rest == g,
                    rest == mask ^ part,
                    part & mask == part,
            ;
        }
    }
    assert(rest * u64::MAX + u64::MAX <= mask * u64::MAX) by (nonlinear_arith)
        requires
            rest < mask,
    ;
}

proof fn lemma_not_within_rest(mask: u32, part: u32)
    requires
        part != 0,
        within(part, mask),
    ensures
        !within(part, mask ^ part),
{
    assert(part & (mask ^ part) != part) by (bit_vector)
        requires
            part != 0,
            part & mask == part,
    ;
}

pub proof fn lemma_scan_good(
    rates: Rates,
    now: u64,
    s: Seq<Shape>,
    mask: u32,
    part: u32,
    found: Option<Cover>,
)
    requires
        good_or_none(rates, now, s, mask, found),
        within(part, mask),
    ensures
        good_or_none(rates, now, s, mask, scan(rates, now, s, mask, part, found)),
    decreases mask, part as int,
{
    if part != 0 {
        lemma_mask_minus(mask, part);
        lemma_mask_step(mask, part);
        lemma_best_good(rates, now, s, mask ^ part);
        let tail = best(rates, now, s, mask ^ part);
        if eligible(rates, now, s, mask, part) && tail is Some {
            lemma_extend_good(rates, now, s, mask, part, tail->0);
            lemma_scan_good(
                rates,
                now,
                s,
                mask,
                (part - 1) as u32 & mask,
                Some(better(found, extend(rates, s, tail->0, part))),
            );
        } else {
            lemma_scan_good(rates, now, s, mask, (part - 1) as u32 & mask, found);
        }
    }
}

/// What the search finds is a feasible partition.
pub proof fn lemma_best_good(rates: Rates, now: u64, s: Seq<Shape>, mask: u32)
    ensures
        good_or_none(rates, now, s, mask, best(rates, now, s, mask)),
    decreases mask, 0x1_0000_0000int,
{
    if mask == 0 {
        lemma_mask_empty();
        let c = best(rates, now, s, mask)->0;
        assert(mask_sets(c.groups) =~= Seq::<Set<usize>>::empty());
        assert(cover_shapes(s, c.groups) =~= Seq::<Shape>::empty());
        assert(splits(mask_sets(c.groups), mask_set(mask)));
    } else {
        assert(within(mask, mask)) by {
            assert(mask & mask == mask) by (bit_vector);
        }
        lemma_scan_good(rates, now, s, mask, mask, None);
    }
}

/// `c` is found, and `other` does not outrank it.
pub open spec fn holds_against(c: Option<Cover>, other: (nat, nat, int)) -> bool {
    c is Some && !outranks(other, rank(c->0))
}

proof fn lemma_scan_best(
    rates: Rates,
    now: u64,
    s: Seq<Shape>,
    mask: u32,
    part: u32,
    found: Option<Cover>,
    target: u32,
    old: (nat, nat, int),
)
    requires
        within(part, mask),
    ensures
        holds_against(found, old) ==> holds_against(scan(rates, now, s, mask, part, found), old),
        within(target, mask) && target <= part && target != 0 && eligible(
            rates,
            now,
            s,
            mask,
            target,
        ) && best(rates, now, s, mask ^ target) is Some ==> holds_against(
            scan(rates, now, s, mask, part, found),
            rank(extend(rates, s, best(rates, now, s, mask ^ target)->0, target)),
        ),
    decreases part,
{
    if part != 0 {
        lemma_mask_step(mask, part);
        let tail = best(rates, now, s, mask ^ part);
        let next = (part - 1) as u32 & mask;
        let cand = extend(rates, s, tail->0, part);
        let after = if eligible(rates, now, s, mask, part) && tail is Some {
            Some(better(found, cand))
        } else {
            found
        };
        lemma_scan_best(rates, now, s, mask, next, after, target, old);
        lemma_scan_best(rates, now, s, mask, next, after, target, rank(cand));
        assert(holds_against(found, old) ==> holds_against(after, old));
        if eligible(rates, now, s, mask, part) && tail is Some {
            assert(holds_against(after, rank(cand)));
        }
        if within(target, mask) && target < part {
            assert(target <= next);
        }
    }
}

/// The block that holds the anchor, as a mask.
proof fn lemma_anchor_block(
    rates: Rates,
    now: u64,
    s: Seq<Shape>,
    mask: u32,
    parts: Seq<Set<usize>>,
) -> (at: (int, u32))
    requires
        mask != 0,
        splits(parts, mask_set(mask)),
        feasible(rates, indexed(s), parts, now),
    ensures
        0 <= at.0 < parts.len(),
        mask_set(at.1) == parts[at.0],
        within(at.1, mask),
        0 < at.1 <= mask,
        (mask ^ at.1) < mask,
        eligible(rates, now, s, mask, at.1),
        splits(parts.remove(at.0), mask_set(mask ^ at.1)),
        feasible(rates, indexed(s), parts.remove(at.0), now),
{
    lemma_anchor(mask);
    let a = anchor(mask);
    let x = a as usize;
    assert(x as u32 == a);
    assert(mask_set(mask).contains(x));
    let i = choose|i: int| 0 <= i < parts.len() && #[trigger] parts[i].contains(x);
    let block = parts[i];
    assert(block.subset_of(mask_set(mask))) by {
        assert forall|t: usize| block.contains(t) implies mask_set(mask).contains(t) by {
            assert(parts[i].contains(t));
        }
    }
    lemma_mask_of(block, mask);
    let part = mask_of(block, 32);
    assert(mask_set(part).contains(x));
    if part == 0 {
        lemma_mask_empty();
    }
    lemma_mask_minus(mask, part);
    lemma_splits_remove(parts, mask_set(mask), i);
    let rest = parts.remove(i);
    assert forall|j: int| 0 <= j < rest.len() implies rates.fits(
        gather(indexed(s), #[trigger] rest[j]),
        now,
    ) by {
        let k = if j < i {
            j
        } else {
            j + 1
        };
        assert(rest[j] == parts[k]);
    }
    assert(rates.fits(gather(indexed(s), parts[i]), now));
    assert(part <= mask) by (bit_vector)
        requires
            part & mask == part,
    ;
    (i, part)
}

/// No feasible partition of `mask` outranks the best cover, and there is a best cover
/// if there is a feasible partition at all.
pub proof fn lemma_best_optimal(
    rates: Rates,
    now: u64,
    s: Seq<Shape>,
    mask: u32,
    parts: Seq<Set<usize>>,
)
    requires
        splits(parts, mask_set(mask)),
        feasible(rates, indexed(s), parts, now),
    ensures
        holds_against(
            best(rates, now, s, mask),
            (
                parts.len(),
                seconds(rates, gathered(indexed(s), parts)),
                first_start(rates, gathered(indexed(s), parts)),
            ),
        ),
    decreases mask,
{
    let shapes = gathered(indexed(s), parts);
    crate::partition::lemma_first_start(rates, shapes);
    if mask == 0 {
        lemma_mask_empty();
        if parts.len() > 0 {
            assert(inhabited(parts[0]));
            let t = choose|t: usize| #[trigger] parts[0].contains(t);
            assert(mask_set(mask).contains(t));
        }
    } else {
        let (i, part) = lemma_anchor_block(rates, now, s, mask, parts);
        let rest = parts.remove(i);
        lemma_best_optimal(rates, now, s, mask ^ part, rest);
        let tail = best(rates, now, s, mask ^ part)->0;
        assert(gathered(indexed(s), rest) =~= shapes.remove(i));
        lemma_seconds_remove(rates, shapes, i);
        lemma_first_start_remove(rates, shapes, i);
        assert(within(mask, mask)) by {
            assert(mask & mask == mask) by (bit_vector);
        }
        let mine = (parts.len(), seconds(rates, shapes), first_start(rates, shapes));
        let cand = extend(rates, s, tail, part);
        assert(cand.groups.len() == tail.groups.len() + 1) by {
            lemma_best_good(rates, now, s, mask ^ part);
            lemma_put(tail.groups, part);
        }
        assert(shapes[i] == mask_shape(s, part));
        assert(!outranks(mine, rank(cand)));
        lemma_scan_best(rates, now, s, mask, mask, None, part, mine);
    }
}

/// The mask of all positions below `n`.
pub open spec fn full(n: nat) -> u32 {
    ((1u32 << (n as u32)) - 1) as u32
}

/// The best division of all demands into batches.
pub open spec fn best_parts(rates: Rates, now: u64, s: Seq<Shape>) -> Seq<Set<usize>> {
    mask_sets(best(rates, now, s, full(s.len()))->0.groups)
}

/// Demands that can each run alone have a best division, and it is feasible.
pub proof fn lemma_best_found(rates: Rates, now: u64, s: Seq<Shape>)
    requires
        s.len() < 32,
        forall|i: int| 0 <= i < s.len() ==> rates.fits(#[trigger] s[i], now),
    ensures
        best(rates, now, s, full(s.len())) is Some,
        splits(best_parts(rates, now, s), upto(s.len())),
        feasible(rates, indexed(s), best_parts(rates, now, s), now),
{
    crate::masks::lemma_mask_full(s.len() as u32);
    crate::bound::lemma_singles(rates, now, s);
    lemma_best_optimal(rates, now, s, full(s.len()), crate::bound::singles(s.len()));
    lemma_best_good(rates, now, s, full(s.len()));
}

} // verus!
