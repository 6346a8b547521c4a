//! Lower bounds on every feasible partition of the waiting patterns.
use vstd::prelude::*;

use crate::listing::{lemma_upto, upto};
use crate::partition::{
    feasible, gathered, indexed, inhabited, lemma_seconds_push, lemma_splits_finite,
    lemma_splits_remove, seconds, splits,
};
use crate::shape::{
    gather, join, lemma_gather_empty, lemma_gather_insert, lemma_gather_one, lemma_gather_shrinks,
    lemma_gather_union, lemma_gather_urgent, lemma_work_empty, lemma_work_union, Rates, Shape,
};
use crate::team::urgency;

verus! {

/// What running everything as one batch asks for.
pub open spec fn total(s: Seq<Shape>) -> Shape {
    gather(indexed(s), upto(s.len()))
}

/// The most generous deadline.
pub open spec fn last_deadline(s: Seq<Shape>) -> u64
    decreases s.len(),
{
    if s.len() == 0 {
        0
    } else if last_deadline(s.drop_last()) <= s.last().deadline {
        s.last().deadline
    } else {
        last_deadline(s.drop_last())
    }
}

/// The seconds that one machine can spend on checks before the most generous deadline.
pub open spec fn capacity(rates: Rates, now: u64, s: Seq<Shape>) -> int {
    last_deadline(s) - now - rates.boot
}

/// How many machines the distinct work needs.
pub open spec fn machines(rates: Rates, now: u64, s: Seq<Shape>) -> int {
    let room = capacity(rates, now, s);
    let work = rates.work(total(s).checks);
    if room <= 0 || work == 0 {
        1
    } else {
        (work + room - 1) / room
    }
}

/// The two demands cannot share a machine.
pub open spec fn clash(rates: Rates, now: u64, a: Shape, b: Shape) -> bool {
    !rates.fits(join(a, b), now)
}

/// Mutually incompatible demands, picked greedily from the first `k` in the order.
pub open spec fn witnesses(rates: Rates, now: u64, s: Seq<Shape>, order: Seq<usize>, k: nat) -> Seq<
    usize,
>
    decreases k,
{
    if k == 0 {
        Seq::empty()
    } else {
        let picked = witnesses(rates, now, s, order, (k - 1) as nat);
        let i = order[k - 1];
        if forall|j: int|
            0 <= j < picked.len() ==> clash(
                rates,
                now,
                s[i as int],
                s[(#[trigger] picked[j]) as int],
            ) {
            picked.push(i)
        } else {
            picked
        }
    }
}

/// A batch count, and machine seconds, that no feasible partition undercuts.
pub open spec fn lower_bound(rates: Rates, now: u64, s: Seq<Shape>) -> (nat, nat) {
    let picked = witnesses(rates, now, s, urgency(rates, s), s.len()).len();
    let count = if machines(rates, now, s) <= picked {
        picked as nat
    } else {
        machines(rates, now, s) as nat
    };
    (count, count * rates.boot as nat + rates.work(total(s).checks))
}

pub proof fn lemma_last_deadline(s: Seq<Shape>, i: int)
    requires
        0 <= i < s.len(),
    ensures
        s[i].deadline <= last_deadline(s),
    decreases s.len(),
{
    if i < s.len() - 1 {
        lemma_last_deadline(s.drop_last(), i);
        assert(s.drop_last()[i] == s[i]);
    }
}

/// Batches pay at least one startup each, and every distinct check once.
pub proof fn lemma_seconds_floor(
    rates: Rates,
    items: Map<usize, Shape>,
    parts: Seq<Set<usize>>,
    whole: Set<usize>,
)
    requires
        splits(parts, whole),
        whole.finite(),
    ensures
        parts.len() * rates.boot + rates.work(gather(items, whole).checks) <= seconds(
            rates,
            gathered(items, parts),
        ),
    decreases parts.len(),
{
    if parts.len() == 0 {
        assert forall|t: usize| !whole.contains(t) by {}
        assert(whole =~= Set::empty());
        lemma_gather_empty(items);
        lemma_work_empty(rates);
    } else {
        let n = parts.len();
        let last = parts[n - 1];
        let rest = parts.remove(n - 1);
        let left = whole.difference(last);
        lemma_splits_remove(parts, whole, n - 1);
        lemma_splits_finite(parts, whole);
        lemma_seconds_floor(rates, items, rest, left);
        assert(gathered(items, parts) =~= gathered(items, rest).push(gather(items, last)));
        lemma_seconds_push(rates, gathered(items, rest), gather(items, last));
        assert(left.union(last) =~= whole) by {
            assert forall|t: usize| last.contains(t) implies whole.contains(t) by {
                assert(parts[n - 1].contains(t));
            }
        }
        lemma_gather_union(items, left, last);
        lemma_work_union(rates, gather(items, left).checks, gather(items, last).checks);
        assert(n * rates.boot == (n - 1) * rates.boot + rates.boot) by (nonlinear_arith);
    }
}

/// A feasible partition has room for all the work.
proof fn lemma_room(
    rates: Rates,
    now: u64,
    s: Seq<Shape>,
    parts: Seq<Set<usize>>,
    whole: Set<usize>,
)
    requires
        splits(parts, whole),
        whole.subset_of(upto(s.len())),
        s.len() <= usize::MAX,
        feasible(rates, indexed(s), parts, now),
    ensures
        rates.work(gather(indexed(s), whole).checks) <= parts.len() * capacity(rates, now, s),
        parts.len() > 0 ==> capacity(rates, now, s) >= 0,
    decreases parts.len(),
{
    let items = indexed(s);
    let room = capacity(rates, now, s);
    lemma_upto(s.len());
    vstd::set_lib::lemma_set_subset_finite(upto(s.len()), whole);
    if parts.len() == 0 {
        assert forall|t: usize| !whole.contains(t) by {}
        assert(whole =~= Set::empty());
        lemma_gather_empty(items);
        lemma_work_empty(rates);
    } else {
        let n = parts.len();
        let last = parts[n - 1];
        let rest = parts.remove(n - 1);
        let left = whole.difference(last);
        lemma_splits_remove(parts, whole, n - 1);
        lemma_splits_finite(parts, whole);
        assert forall|i: int| 0 <= i < rest.len() implies rates.fits(
            gather(items, #[trigger] rest[i]),
            now,
        ) by {
            assert(rest[i] == parts[i]);
        }
        lemma_room(rates, now, s, rest, left);
        assert(left.union(last) =~= whole) by {
            assert forall|t: usize| last.contains(t) implies whole.contains(t) by {
                assert(parts[n - 1].contains(t));
            }
        }
        lemma_gather_union(items, left, last);
        lemma_work_union(rates, gather(items, left).checks, gather(items, last).checks);
        lemma_gather_urgent(items, last);
        let t = choose|t: usize| #[trigger]
            last.contains(t) && items[t].deadline == gather(items, last).deadline;
        assert(parts[n - 1].contains(t));
        assert(whole.contains(t));
        lemma_last_deadline(s, t as int);
        assert(rates.fits(gather(items, parts[n - 1]), now));
        assert(rates.work(gather(items, last).checks) <= room);
        assert(n * room == (n - 1) * room + room) by (nonlinear_arith);
    }
}

/// The block of a partition that holds `t`.
pub open spec fn block_of(parts: Seq<Set<usize>>, t: usize) -> int {
    choose|i: int| 0 <= i < parts.len() && #[trigger] parts[i].contains(t)
}

/// Picked witnesses are positions that pairwise clash.
pub proof fn lemma_witnesses(rates: Rates, now: u64, s: Seq<Shape>, order: Seq<usize>, k: nat)
    requires
        k <= order.len(),
        forall|i: int| 0 <= i < order.len() ==> (#[trigger] order[i]) < s.len(),
    ensures
        witnesses(rates, now, s, order, k).len() <= k,
        forall|i: int|
            0 <= i < witnesses(rates, now, s, order, k).len() ==> (#[trigger] witnesses(
                rates,
                now,
                s,
                order,
                k,
            )[i]) < s.len(),
        forall|i: int, j: int|
            0 <= i < j < witnesses(rates, now, s, order, k).len() ==> clash(
                rates,
                now,
                s[(#[trigger] witnesses(rates, now, s, order, k)[j]) as int],
                s[(#[trigger] witnesses(rates, now, s, order, k)[i]) as int],
            ),
    decreases k,
{
    if k > 0 {
        lemma_witnesses(rates, now, s, order, (k - 1) as nat);
    }
}

/// Witnesses need a machine each.
proof fn lemma_witnesses_apart(
    rates: Rates,
    now: u64,
    s: Seq<Shape>,
    picked: Seq<usize>,
    parts: Seq<Set<usize>>,
)
    requires
        s.len() <= usize::MAX,
        splits(parts, upto(s.len())),
        feasible(rates, indexed(s), parts, now),
        forall|i: int| 0 <= i < picked.len() ==> (#[trigger] picked[i]) < s.len(),
        forall|i: int, j: int|
            0 <= i < j < picked.len() ==> clash(
                rates,
                now,
                s[(#[trigger] picked[j]) as int],
                s[(#[trigger] picked[i]) as int],
            ),
    ensures
        picked.len() <= parts.len(),
{
    let items = indexed(s);
    let homes = picked.map_values(|t: usize| block_of(parts, t));
    lemma_upto(s.len());
    lemma_splits_finite(parts, upto(s.len()));
    assert forall|i: int| 0 <= i < picked.len() implies 0 <= (#[trigger] homes[i]) < parts.len()
        && parts[homes[i]].contains(picked[i]) by {
        assert(upto(s.len()).contains(picked[i]));
    }
    assert forall|i: int, j: int| 0 <= i < j < picked.len() implies homes[i] != homes[j] by {
        if homes[i] == homes[j] {
            let block = parts[homes[i]];
            assert(block.contains(picked[i]) && block.contains(picked[j]));
            let pair = set![picked[j]].insert(picked[i]);
            lemma_gather_insert(items, set![picked[j]], picked[i]);
            lemma_gather_one(items, picked[j]);
            assert(pair.subset_of(block));
            lemma_gather_shrinks(rates, items, pair, block);
            assert(rates.fits(gather(items, parts[homes[i]]), now));
            assert(clash(rates, now, s[picked[j] as int], s[picked[i] as int]));
        }
    }
    assert(homes.no_duplicates());
    homes.unique_seq_to_set();
    vstd::set_lib::lemma_int_range(0, parts.len() as int);
    assert(homes.to_set().subset_of(vstd::set_lib::set_int_range(0, parts.len() as int))) by {
        assert forall|h: int| homes.to_set().contains(h) implies 0 <= h < parts.len() by {
            let i = choose|i: int| 0 <= i < homes.len() && homes[i] == h;
            assert(0 <= homes[i] < parts.len());
        }
    }
    vstd::set_lib::lemma_len_subset(
        homes.to_set(),
        vstd::set_lib::set_int_range(0, parts.len() as int),
    );
}

/// No feasible partition of the waiting patterns has fewer batches, or takes fewer
/// seconds, than the lower bound says.
pub proof fn lemma_lower_bound(rates: Rates, now: u64, s: Seq<Shape>, parts: Seq<Set<usize>>)
    requires
        0 < s.len() <= usize::MAX,
        splits(parts, upto(s.len())),
        feasible(rates, indexed(s), parts, now),
    ensures
        lower_bound(rates, now, s).0 <= parts.len(),
        lower_bound(rates, now, s).1 <= seconds(rates, gathered(indexed(s), parts)),
        machines(rates, now, s) <= parts.len(),
{
    let items = indexed(s);
    let order = urgency(rates, s);
    let picked = witnesses(rates, now, s, order, s.len());
    lemma_upto(s.len());
    assert(upto(s.len()).contains(0));
    lemma_room(rates, now, s, parts, upto(s.len()));
    let room = capacity(rates, now, s);
    let work = rates.work(total(s).checks);
    let n = parts.len();
    if room > 0 && work > 0 {
        assert((work + room - 1) / room <= n) by (nonlinear_arith)
            requires
                room > 0,
                work <= n * room,
        ;
    }
    crate::team::lemma_urgency(rates, s);
    lemma_witnesses(rates, now, s, order, s.len());
    lemma_witnesses_apart(rates, now, s, picked, parts);
    lemma_seconds_floor(rates, items, parts, upto(s.len()));
    let count = lower_bound(rates, now, s).0;
    assert(count * rates.boot <= n * rates.boot) by (nonlinear_arith)
        requires
            count <= n,
    ;
}

/// Each item on a machine of its own.
pub open spec fn singles(n: nat) -> Seq<Set<usize>> {
    Seq::new(n, |i: int| set![i as usize])
}

pub proof fn lemma_singles(rates: Rates, now: u64, s: Seq<Shape>)
    requires
        s.len() <= usize::MAX,
        forall|i: int| 0 <= i < s.len() ==> rates.fits(#[trigger] s[i], now),
    ensures
        splits(singles(s.len()), upto(s.len())),
        feasible(rates, indexed(s), singles(s.len()), now),
{
    let parts = singles(s.len());
    assert forall|i: int| 0 <= i < parts.len() implies inhabited(#[trigger] parts[i]) && rates.fits(
        gather(indexed(s), parts[i]),
        now,
    ) by {
        assert(parts[i].contains(i as usize));
        lemma_gather_one(indexed(s), i as usize);
        assert(indexed(s)[i as usize] == s[i]);
    }
    assert forall|t: usize| upto(s.len()).contains(t) implies exists|i: int|
        0 <= i < parts.len() && #[trigger] parts[i].contains(t) by {
        assert(parts[t as int].contains(t));
    }
}

} // verus!
