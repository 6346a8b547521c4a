//! What branch and bound guarantees.
use vstd::multiset::Multiset;
use vstd::prelude::*;

use crate::bound::{lower_bound, total};
use crate::hunt::{load, slot_shapes, Ground, Hunt, Slot};
use crate::listing::{lemma_upto, upto};
use crate::partition::{
    beats, feasible, gathered, indexed, inhabited, lemma_seconds_push, lemma_seconds_remove,
    lemma_seconds_update, lemma_splits_insert, score, seconds, splits,
};
use crate::shape::{
    gather, join, lemma_gather_empty, lemma_gather_insert, lemma_gather_one, lemma_gather_shrinks,
    lemma_work_marginal, lemma_work_monotone, lemma_work_union, Rates, Shape,
};
use crate::team::extra;

verus! {

/// The order of machines does not change what they cost together.
pub proof fn lemma_seconds_permuted(rates: Rates, a: Seq<Shape>, b: Seq<Shape>)
    requires
        a.to_multiset() == b.to_multiset(),
    ensures
        seconds(rates, a) == seconds(rates, b),
        a.len() == b.len(),
    decreases a.len(),
{
    broadcast use vstd::seq_lib::group_to_multiset_ensures;

    assert(a.len() == a.to_multiset().len());
    assert(b.len() == b.to_multiset().len());
    if a.len() > 0 {
        let i = a.len() - 1;
        let x = a[i];
        assert(a.contains(x));
        assert(a.to_multiset().count(x) > 0);
        assert(b.contains(x));
        let j = choose|j: int| 0 <= j < b.len() && b[j] == x;
        assert(a.remove(i).to_multiset() =~= a.to_multiset().remove(x));
        assert(b.remove(j).to_multiset() =~= b.to_multiset().remove(x));
        lemma_seconds_permuted(rates, a.remove(i), b.remove(j));
        lemma_seconds_remove(rates, a, i);
        lemma_seconds_remove(rates, b, j);
    }
}

impl Ground {
    /// The order visits every pattern once, and each pattern can run alone.
    pub open spec fn sound(self) -> bool {
        &&& self.order.no_duplicates()
        &&& self.order.len() == self.shapes.len()
        &&& 0 < self.shapes.len() <= usize::MAX
        &&& self.order.to_set() == upto(self.shapes.len())
        &&& forall|i: int|
            0 <= i < self.shapes.len() ==> self.rates.fits(#[trigger] self.shapes[i], self.now)
        &&& self.total_work == self.rates.work(total(self.shapes).checks)
    }

    /// The patterns assigned before `pos`.
    pub open spec fn assigned(self, pos: nat) -> Set<usize> {
        self.order.take(pos as int).to_set()
    }

    /// The checks covered before `pos`.
    pub open spec fn covered(self, pos: nat) -> Set<usize> {
        gather(indexed(self.shapes), self.assigned(pos)).checks
    }

    pub open spec fn inside(self, loads: Multiset<Shape>, covered: Set<usize>) -> bool {
        forall|base: Shape| #[trigger] loads.contains(base) ==> base.checks.subset_of(covered)
    }
}

pub proof fn lemma_assigned(g: Ground, pos: nat)
    requires
        g.sound(),
        pos < g.order.len(),
    ensures
        g.order[pos as int] < g.shapes.len(),
        g.assigned(pos + 1) == g.assigned(pos).insert(g.order[pos as int]),
        !g.assigned(pos).contains(g.order[pos as int]),
        g.assigned(pos).subset_of(upto(g.shapes.len())),
        g.assigned(pos).finite(),
        g.covered(pos + 1) == g.covered(pos).union(g.job(pos).checks),
        g.rates.fits(g.job(pos), g.now),
{
    let x = g.order[pos as int];
    assert(g.order.to_set().contains(x));
    let q = g.order.take(pos as int);
    assert(g.order.take((pos + 1) as int) =~= q.push(x));
    q.lemma_push_to_set_commute(x);
    if g.assigned(pos).contains(x) {
        let k = choose|k: int| 0 <= k < q.len() && q[k] == x;
        assert(g.order[k] == g.order[pos as int]);
    }
    assert forall|t: usize| g.assigned(pos).contains(t) implies upto(g.shapes.len()).contains(
        t,
    ) by {
        let k = choose|k: int| 0 <= k < q.len() && q[k] == t;
        assert(g.order[k] == t);
        assert(g.order.to_set().contains(t));
    }
    lemma_gather_insert(indexed(g.shapes), g.assigned(pos), x);
    assert(indexed(g.shapes)[x] == g.job(pos));
}

pub proof fn lemma_assigned_ends(g: Ground)
    requires
        g.sound(),
    ensures
        g.assigned(0) == Set::<usize>::empty(),
        g.covered(0) == Set::<usize>::empty(),
        g.assigned(g.order.len()) == upto(g.shapes.len()),
        g.covered(g.order.len()) == total(g.shapes).checks,
{
    assert(g.order.take(0).to_set() =~= Set::<usize>::empty());
    lemma_gather_empty(indexed(g.shapes));
    assert(g.order.take(g.order.len() as int) =~= g.order);
}

pub proof fn lemma_covered_total(g: Ground, pos: nat)
    requires
        g.sound(),
        pos <= g.order.len(),
    ensures
        g.covered(pos).subset_of(total(g.shapes).checks),
        g.rates.work(g.covered(pos)) <= g.total_work,
    decreases g.order.len() - pos,
{
    if pos < g.order.len() {
        lemma_covered_total(g, pos + 1);
        lemma_assigned(g, pos);
    } else {
        lemma_assigned_ends(g);
    }
    lemma_work_monotone(g.rates, g.covered(pos), total(g.shapes).checks);
}

/// Every ending has at least the machines already open, pays every further startup, and
/// every check not yet covered.
pub proof fn lemma_reach_growth(
    g: Ground,
    pos: nat,
    loads: Multiset<Shape>,
    secs: nat,
    end: (nat, nat),
)
    requires
        g.sound(),
        pos <= g.order.len(),
        g.inside(loads, g.covered(pos)),
        g.reach(pos, loads, secs, end),
    ensures
        end.0 >= loads.len(),
        end.1 >= secs + (end.0 - loads.len()) * g.rates.boot + g.total_work - g.rates.work(
            g.covered(pos),
        ),
    decreases g.order.len() - pos,
{
    broadcast use vstd::multiset::group_multiset_axioms;

    if pos == g.order.len() {
        lemma_assigned_ends(g);
    } else {
        lemma_assigned(g, pos);
        let job = g.job(pos);
        let cov = g.covered(pos);
        let next = g.covered(pos + 1);
        let boot = g.rates.boot as int;
        let alone = loads.insert(job);
        if g.reach(pos + 1, alone, secs + g.rates.duration(job.checks), end) {
            assert forall|base: Shape| #[trigger] alone.contains(base) implies base.checks.subset_of(
                next,
            ) by {
                if base != job {
                    assert(loads.contains(base));
                }
            }
            lemma_reach_growth(g, pos + 1, alone, secs + g.rates.duration(job.checks), end);
            lemma_work_union(g.rates, cov, job.checks);
            let more = end.0 - alone.len();
            assert((more + 1) * boot == more * boot + boot) by (nonlinear_arith);
            assert(end.0 - loads.len() == more + 1);
        } else {
            let base = choose|base: Shape| #[trigger]
                loads.contains(base) && g.rates.fits(join(base, job), g.now) && g.reach(
                    pos + 1,
                    loads.remove(base).insert(join(base, job)),
                    (secs + extra(g.rates, base, job)) as nat,
                    end,
                );
            let after = loads.remove(base).insert(join(base, job));
            assert forall|other: Shape| #[trigger] after.contains(other) implies
                other.checks.subset_of(next) by {
                if other != join(base, job) {
                    assert(loads.contains(other));
                }
            }
            lemma_work_marginal(g.rates, base.checks, cov, job.checks);
            lemma_work_monotone(g.rates, base.checks, join(base, job).checks);
            lemma_reach_growth(
                g,
                pos + 1,
                after,
                (secs + extra(g.rates, base, job)) as nat,
                end,
            );
            assert(after.len() == loads.len());
        }
    }
}

/// `all` is a feasible partition of the patterns with this score.
pub open spec fn attains(g: Ground, all: Seq<Set<usize>>, end: (nat, nat)) -> bool {
    &&& splits(all, upto(g.shapes.len()))
    &&& feasible(g.rates, indexed(g.shapes), all, g.now)
    &&& score(g.rates, gathered(indexed(g.shapes), all)) == end
}

/// Every ending is a feasible partition.
pub proof fn lemma_reach_sound(g: Ground, pos: nat, parts: Seq<Set<usize>>, end: (nat, nat))
    requires
        g.sound(),
        pos <= g.order.len(),
        splits(parts, g.assigned(pos)),
        feasible(g.rates, indexed(g.shapes), parts, g.now),
        g.reach(
            pos,
            gathered(indexed(g.shapes), parts).to_multiset(),
            seconds(g.rates, gathered(indexed(g.shapes), parts)),
            end,
        ),
    ensures
        exists|all: Seq<Set<usize>>| attains(g, all, end),
    decreases g.order.len() - pos,
{
    broadcast use vstd::seq_lib::group_to_multiset_ensures;
    broadcast use vstd::multiset::group_multiset_axioms;

    let items = indexed(g.shapes);
    let demands = gathered(items, parts);
    let loads = demands.to_multiset();
    let secs = seconds(g.rates, demands);
    if pos == g.order.len() {
        lemma_assigned_ends(g);
        assert(loads.len() == demands.len());
        assert(attains(g, parts, end));
    } else {
        lemma_assigned(g, pos);
        let job = g.job(pos);
        let x = g.order[pos as int];
        assert(items[x] == job);
        if g.reach(pos + 1, loads.insert(job), secs + g.rates.duration(job.checks), end) {
            let one: Set<usize> = set![x];
            assert(one.contains(x));
            let next = parts.push(one);
            lemma_splits_insert(parts, g.assigned(pos), parts.len() as int, one);
            assert(parts.insert(parts.len() as int, one) =~= next);
            assert(g.assigned(pos).union(one) =~= g.assigned(pos + 1));
            lemma_gather_one(items, x);
            assert(gathered(items, next) =~= demands.push(job));
            assert(demands.push(job).to_multiset() =~= loads.insert(job));
            lemma_seconds_push(g.rates, demands, job);
            assert forall|i: int| 0 <= i < next.len() implies g.rates.fits(
                gather(items, #[trigger] next[i]),
                g.now,
            ) by {
                if i < parts.len() {
                    assert(next[i] == parts[i]);
                }
            }
            lemma_reach_sound(g, pos + 1, next, end);
        } else {
            let base = choose|base: Shape| #[trigger]
                loads.contains(base) && g.rates.fits(join(base, job), g.now) && g.reach(
                    pos + 1,
                    loads.remove(base).insert(join(base, job)),
                    (secs + extra(g.rates, base, job)) as nat,
                    end,
                );
            assert(demands.contains(base));
            let i = choose|i: int| 0 <= i < demands.len() && demands[i] == base;
            let next = parts.update(i, parts[i].insert(x));
            crate::partition::lemma_splits_finite(parts, g.assigned(pos));
            lemma_splits_grow_demand(g, pos, parts, i);
            lemma_gather_insert(items, parts[i], x);
            assert(gathered(items, next) =~= demands.update(i, join(base, job)));
            assert(demands.update(i, join(base, job)).to_multiset() =~= loads.remove(base).insert(
                join(base, job),
            ));
            lemma_seconds_update(g.rates, demands, i, join(base, job));
            assert forall|k: int| 0 <= k < next.len() implies g.rates.fits(
                gather(items, #[trigger] next[k]),
                g.now,
            ) by {
                if k != i {
                    assert(next[k] == parts[k]);
                }
            }
            lemma_reach_sound(g, pos + 1, next, end);
        }
    }
}

proof fn lemma_splits_grow_demand(g: Ground, pos: nat, parts: Seq<Set<usize>>, i: int)
    requires
        g.sound(),
        pos < g.order.len(),
        splits(parts, g.assigned(pos)),
        0 <= i < parts.len(),
    ensures
        splits(parts.update(i, parts[i].insert(g.order[pos as int])), g.assigned(pos + 1)),
{
    lemma_assigned(g, pos);
    crate::partition::lemma_splits_grow(parts, g.assigned(pos), i, g.order[pos as int]);
}

/// The demands of those of the first `k` blocks that meet `some`, cut down to it.
pub open spec fn cut_loads(
    items: Map<usize, Shape>,
    parts: Seq<Set<usize>>,
    some: Set<usize>,
    k: nat,
) -> Multiset<Shape>
    decreases k,
{
    if k == 0 {
        Multiset::empty()
    } else {
        let rest = cut_loads(items, parts, some, (k - 1) as nat);
        let cut = parts[k - 1].intersect(some);
        if inhabited(cut) {
            rest.insert(gather(items, cut))
        } else {
            rest
        }
    }
}

/// The seconds that those take.
pub open spec fn cut_seconds(
    rates: Rates,
    items: Map<usize, Shape>,
    parts: Seq<Set<usize>>,
    some: Set<usize>,
    k: nat,
) -> nat
    decreases k,
{
    if k == 0 {
        0
    } else {
        let rest = cut_seconds(rates, items, parts, some, (k - 1) as nat);
        let cut = parts[k - 1].intersect(some);
        if inhabited(cut) {
            rest + rates.duration(gather(items, cut).checks)
        } else {
            rest
        }
    }
}

proof fn lemma_cut_other(
    rates: Rates,
    items: Map<usize, Shape>,
    parts: Seq<Set<usize>>,
    some: Set<usize>,
    x: usize,
    k: nat,
)
    requires
        k <= parts.len(),
        forall|j: int| 0 <= j < k ==> !(#[trigger] parts[j]).contains(x),
    ensures
        cut_loads(items, parts, some.insert(x), k) == cut_loads(items, parts, some, k),
        cut_seconds(rates, items, parts, some.insert(x), k) == cut_seconds(
            rates,
            items,
            parts,
            some,
            k,
        ),
    decreases k,
{
    if k > 0 {
        lemma_cut_other(rates, items, parts, some, x, (k - 1) as nat);
        assert(!parts[k - 1].contains(x));
        assert(parts[k - 1].intersect(some.insert(x)) =~= parts[k - 1].intersect(some));
    }
}

/// Letting in one more item changes one block.
proof fn lemma_cut_step(
    rates: Rates,
    items: Map<usize, Shape>,
    parts: Seq<Set<usize>>,
    whole: Set<usize>,
    some: Set<usize>,
    x: usize,
    i: int,
    k: nat,
)
    requires
        splits(parts, whole),
        some.finite(),
        !some.contains(x),
        0 <= i < k <= parts.len(),
        parts[i].contains(x),
    ensures
        ({
            let before = parts[i].intersect(some);
            let base = gather(items, before);
            let after = join(base, items[x]);
            let loads = cut_loads(items, parts, some, k);
            let next = cut_loads(items, parts, some.insert(x), k);
            let secs = cut_seconds(rates, items, parts, some, k);
            let next_secs = cut_seconds(rates, items, parts, some.insert(x), k);
            if inhabited(before) {
                &&& loads.contains(base)
                &&& next == loads.remove(base).insert(after)
                &&& next_secs + rates.duration(base.checks) == secs + rates.duration(after.checks)
                &&& gather(items, parts[i].intersect(some.insert(x))) == after
            } else {
                &&& next == loads.insert(items[x])
                &&& next_secs == secs + rates.duration(items[x].checks)
            }
        }),
    decreases k,
{
    broadcast use vstd::multiset::group_multiset_axioms;

    let before = parts[i].intersect(some);
    let base = gather(items, before);
    let after = join(base, items[x]);
    let wider = some.insert(x);
    if k - 1 == i {
        assert forall|j: int| 0 <= j < k - 1 implies !(#[trigger] parts[j]).contains(x) by {
            if parts[j].contains(x) {
                assert(parts[i].contains(x));
                assert(j == i);
            }
        }
        lemma_cut_other(rates, items, parts, some, x, (k - 1) as nat);
        assert(parts[i].intersect(wider) =~= before.insert(x));
        lemma_gather_insert(items, before, x);
        assert(before.insert(x).contains(x));
        let rest = cut_loads(items, parts, some, (k - 1) as nat);
        if inhabited(before) {
            assert(rest.insert(base).remove(base) =~= rest);
        } else {
            assert(before =~= Set::empty());
            lemma_gather_empty(items);
            lemma_gather_one(items, x);
            assert(before.insert(x) =~= set![x]);
        }
    } else {
        lemma_cut_step(rates, items, parts, whole, some, x, i, (k - 1) as nat);
        let last = parts[k - 1];
        assert(!last.contains(x)) by {
            if parts[k - 1].contains(x) {
                assert(parts[i].contains(x));
            }
        }
        assert(last.intersect(wider) =~= last.intersect(some));
        let rest = cut_loads(items, parts, some, (k - 1) as nat);
        let y = gather(items, last.intersect(some));
        if inhabited(last.intersect(some)) {
            if inhabited(before) {
                assert(rest.remove(base).insert(after).insert(y) =~= rest.insert(y).remove(
                    base,
                ).insert(after));
            } else {
                assert(rest.insert(items[x]).insert(y) =~= rest.insert(y).insert(items[x]));
            }
        }
    }
}

proof fn lemma_cut_all(
    rates: Rates,
    items: Map<usize, Shape>,
    parts: Seq<Set<usize>>,
    whole: Set<usize>,
    k: nat,
)
    requires
        splits(parts, whole),
        k <= parts.len(),
    ensures
        cut_loads(items, parts, whole, k).len() == k,
        cut_seconds(rates, items, parts, whole, k) == seconds(
            rates,
            gathered(items, parts.take(k as int)),
        ),
    decreases k,
{
    broadcast use vstd::multiset::group_multiset_axioms;

    if k > 0 {
        lemma_cut_all(rates, items, parts, whole, (k - 1) as nat);
        assert(parts[k - 1].intersect(whole) =~= parts[k - 1]) by {
            assert forall|t: usize| parts[k - 1].contains(t) implies whole.contains(t) by {}
        }
        assert(inhabited(parts[k - 1]));
        let init = gathered(items, parts.take(k - 1));
        assert(gathered(items, parts.take(k as int)) =~= init.push(gather(items, parts[k - 1])));
        lemma_seconds_push(rates, init, gather(items, parts[k - 1]));
    }
}

proof fn lemma_cut_none(
    rates: Rates,
    items: Map<usize, Shape>,
    parts: Seq<Set<usize>>,
    k: nat,
)
    requires
        k <= parts.len(),
    ensures
        cut_loads(items, parts, Set::empty(), k) == Multiset::<Shape>::empty(),
        cut_seconds(rates, items, parts, Set::empty(), k) == 0,
    decreases k,
{
    if k > 0 {
        lemma_cut_none(rates, items, parts, (k - 1) as nat);
    }
}

/// Every feasible partition is an ending.
proof fn lemma_reach_cut(g: Ground, pos: nat, parts: Seq<Set<usize>>)
    requires
        g.sound(),
        pos <= g.order.len(),
        splits(parts, upto(g.shapes.len())),
        feasible(g.rates, indexed(g.shapes), parts, g.now),
    ensures
        g.reach(
            pos,
            cut_loads(indexed(g.shapes), parts, g.assigned(pos), parts.len()),
            cut_seconds(g.rates, indexed(g.shapes), parts, g.assigned(pos), parts.len()),
            score(g.rates, gathered(indexed(g.shapes), parts)),
        ),
    decreases g.order.len() - pos,
{
    let items = indexed(g.shapes);
    let n = parts.len();
    let loads = cut_loads(items, parts, g.assigned(pos), n);
    let secs = cut_seconds(g.rates, items, parts, g.assigned(pos), n);
    if pos == g.order.len() {
        lemma_assigned_ends(g);
        lemma_cut_all(g.rates, items, parts, upto(g.shapes.len()), n);
        assert(parts.take(n as int) =~= parts);
    } else {
        lemma_reach_cut(g, pos + 1, parts);
        lemma_assigned(g, pos);
        let job = g.job(pos);
        let x = g.order[pos as int];
        let some = g.assigned(pos);
        assert(items[x] == job);
        assert(upto(g.shapes.len()).contains(x));
        let i = choose|i: int| 0 <= i < parts.len() && #[trigger] parts[i].contains(x);
        lemma_cut_step(g.rates, items, parts, upto(g.shapes.len()), some, x, i, n);
        let before = parts[i].intersect(some);
        let base = gather(items, before);
        if inhabited(before) {
            lemma_upto(g.shapes.len());
            crate::partition::lemma_splits_finite(parts, upto(g.shapes.len()));
            assert(parts[i].intersect(some.insert(x)).subset_of(parts[i]));
            lemma_gather_shrinks(
                g.rates,
                items,
                parts[i].intersect(some.insert(x)),
                parts[i],
            );
            assert(g.rates.fits(gather(items, parts[i]), g.now));
            assert(g.rates.fits(join(base, job), g.now));
            assert(loads.contains(base));
            assert(secs + extra(g.rates, base, job) == cut_seconds(
                g.rates,
                items,
                parts,
                g.assigned(pos + 1),
                n,
            ));
        }
    }
}

/// Every feasible partition is among the endings of the search.
pub proof fn lemma_reach_complete(g: Ground, parts: Seq<Set<usize>>)
    requires
        g.sound(),
        splits(parts, upto(g.shapes.len())),
        feasible(g.rates, indexed(g.shapes), parts, g.now),
    ensures
        g.reach(
            0,
            Multiset::empty(),
            0,
            score(g.rates, gathered(indexed(g.shapes), parts)),
        ),
{
    lemma_assigned_ends(g);
    lemma_reach_cut(g, 0, parts);
    lemma_cut_none(g.rates, indexed(g.shapes), parts, parts.len());
}

/// No ending undercuts the bound.
pub proof fn lemma_reach_floor(g: Ground, end: (nat, nat))
    requires
        g.sound(),
        g.bound == lower_bound(g.rates, g.now, g.shapes),
        g.reach(0, Multiset::empty(), 0, end),
    ensures
        g.bound.0 <= end.0,
        g.bound.1 <= end.1,
{
    let none = Seq::<Set<usize>>::empty();
    lemma_assigned_ends(g);
    assert(gathered(indexed(g.shapes), none) =~= Seq::<Shape>::empty());
    assert(Seq::<Shape>::empty().to_multiset() =~= Multiset::<Shape>::empty()) by {
        broadcast use vstd::seq_lib::group_to_multiset_ensures;

    }
    assert(splits(none, g.assigned(0)));
    lemma_reach_sound(g, 0, none, end);
    let all = choose|all: Seq<Set<usize>>| attains(g, all, end);
    crate::bound::lemma_lower_bound(g.rates, g.now, g.shapes, all);
}

/// The patterns on each machine.
pub open spec fn index_sets(lists: Seq<Seq<usize>>) -> Seq<Set<usize>> {
    lists.map_values(|list: Seq<usize>| list.to_set())
}

pub open spec fn slot_lists(slots: Seq<Slot>) -> Seq<Seq<usize>> {
    slots.map_values(|slot: Slot| slot.patterns)
}

impl Ground {
    /// The machines hold exactly the patterns assigned before `pos`, on time.
    #[verifier::opaque]
    pub open spec fn tidy(self, pos: nat, slots: Seq<Slot>, secs: nat, covered: Set<usize>) -> bool {
        &&& splits(index_sets(slot_lists(slots)), self.assigned(pos))
        &&& forall|i: int|
            0 <= i < slots.len() ==> (#[trigger] slots[i]).shape == gather(
                indexed(self.shapes),
                slots[i].patterns.to_set(),
            ) && slots[i].patterns.no_duplicates() && self.rates.fits(slots[i].shape, self.now)
        &&& secs == seconds(self.rates, slot_shapes(slots))
        &&& covered == self.covered(pos)
    }

    /// The best assignment is a feasible partition, and its score is right.
    #[verifier::opaque]
    pub open spec fn proper(self, lists: Seq<Seq<usize>>, best_score: (nat, nat)) -> bool {
        &&& attains(self, index_sets(lists), best_score)
        &&& forall|i: int| 0 <= i < lists.len() ==> (#[trigger] lists[i]).no_duplicates()
    }
}

pub proof fn lemma_tidy_start(g: Ground)
    requires
        g.sound(),
    ensures
        g.tidy(0, Seq::empty(), 0, Set::empty()),
{
    reveal(Ground::tidy);
    lemma_assigned_ends(g);
    let none = Seq::<Slot>::empty();
    assert(index_sets(slot_lists(none)) =~= Seq::<Set<usize>>::empty());
    assert(slot_shapes(none) =~= Seq::<Shape>::empty());
    assert(splits(Seq::<Set<usize>>::empty(), g.assigned(0)));
}

/// A machine that takes in the next pattern stays on time.
pub proof fn lemma_tidy_filled(
    g: Ground,
    pos: nat,
    slots: Seq<Slot>,
    secs: nat,
    covered: Set<usize>,
    i: usize,
)
    requires
        g.sound(),
        pos < g.order.len(),
        g.tidy(pos, slots, secs, covered),
        g.openings(slots, pos).contains(i),
    ensures
        secs + extra(g.rates, slots[i as int].shape, g.job(pos)) >= secs,
        g.tidy(
            pos + 1,
            g.filled(slots, pos, i),
            (secs + extra(g.rates, slots[i as int].shape, g.job(pos))) as nat,
            covered.union(g.job(pos).checks),
        ),
{
    reveal(Ground::tidy);
    let items = indexed(g.shapes);
    let x = g.order[pos as int];
    let next = g.filled(slots, pos, i);
    let k = i as int;
    lemma_assigned(g, pos);
    assert(items[x] == g.job(pos));
    let parts = index_sets(slot_lists(slots));
    assert(parts[k] == slots[k].patterns.to_set());
    crate::partition::lemma_splits_finite(parts, g.assigned(pos));
    lemma_splits_grow_demand(g, pos, parts, k);
    slots[k].patterns.lemma_push_to_set_commute(x);
    assert(index_sets(slot_lists(next)) =~= parts.update(k, parts[k].insert(x)));
    lemma_gather_insert(items, parts[k], x);
    assert(!slots[k].patterns.contains(x)) by {
        if slots[k].patterns.contains(x) {
            assert(parts[k].contains(x));
        }
    }
    assert(slot_shapes(next) =~= slot_shapes(slots).update(k, join(slots[k].shape, g.job(pos))));
    lemma_seconds_update(g.rates, slot_shapes(slots), k, join(slots[k].shape, g.job(pos)));
    crate::shape::lemma_join_monotone(g.rates, slots[k].shape, g.job(pos));
    assert forall|j: int| 0 <= j < next.len() implies (#[trigger] next[j]).shape == gather(
        items,
        next[j].patterns.to_set(),
    ) && next[j].patterns.no_duplicates() && g.rates.fits(next[j].shape, g.now) by {
        if j != k {
            assert(next[j] == slots[j]);
        } else {
            assert(slots[k].shape == gather(items, slots[k].patterns.to_set()));
        }
    }
}

/// A pattern on a machine of its own is on time.
pub proof fn lemma_tidy_opened(
    g: Ground,
    pos: nat,
    slots: Seq<Slot>,
    secs: nat,
    covered: Set<usize>,
)
    requires
        g.sound(),
        pos < g.order.len(),
        g.tidy(pos, slots, secs, covered),
    ensures
        g.tidy(
            pos + 1,
            g.opened(slots, pos),
            secs + g.rates.duration(g.job(pos).checks),
            covered.union(g.job(pos).checks),
        ),
{
    reveal(Ground::tidy);
    let items = indexed(g.shapes);
    let x = g.order[pos as int];
    let next = g.opened(slots, pos);
    lemma_assigned(g, pos);
    assert(items[x] == g.job(pos));
    let parts = index_sets(slot_lists(slots));
    let one = seq![x].to_set();
    assert(seq![x][0] == x);
    assert(one =~= set![x]);
    assert(one.contains(x));
    lemma_splits_insert(parts, g.assigned(pos), parts.len() as int, one);
    assert(parts.insert(parts.len() as int, one) =~= index_sets(slot_lists(next)));
    assert(g.assigned(pos).union(one) =~= g.assigned(pos + 1));
    lemma_gather_one(items, x);
    assert(slot_shapes(next) =~= slot_shapes(slots).push(g.job(pos)));
    lemma_seconds_push(g.rates, slot_shapes(slots), g.job(pos));
    assert forall|j: int| 0 <= j < next.len() implies (#[trigger] next[j]).shape == gather(
        items,
        next[j].patterns.to_set(),
    ) && next[j].patterns.no_duplicates() && g.rates.fits(next[j].shape, g.now) by {
        if j < slots.len() {
            assert(next[j] == slots[j]);
        } else {
            assert(next[j].patterns =~= seq![x]);
        }
    }
}

/// Trying order is an order.
pub proof fn lemma_cheaper_orders(g: Ground, slots: Seq<Slot>, pos: nat)
    requires
        slots.len() <= usize::MAX,
    ensures
        crate::listing::orders(
            |a: usize, b: usize| g.cheaper(slots, pos, a, b),
            g.openings(slots, pos),
        ),
        g.openings(slots, pos).finite(),
{
    let open = g.openings(slots, pos);
    lemma_upto(slots.len());
    assert(open.subset_of(upto(slots.len())));
    vstd::set_lib::lemma_set_subset_finite(upto(slots.len()), open);
}

pub proof fn lemma_options(g: Ground, slots: Seq<Slot>, pos: nat)
    requires
        slots.len() <= usize::MAX,
    ensures
        g.options(slots, pos).to_set() == g.openings(slots, pos),
        forall|k: int|
            0 <= k < g.options(slots, pos).len() ==> g.openings(slots, pos).contains(
                #[trigger] g.options(slots, pos)[k],
            ),
        g.options(slots, pos).len() <= slots.len(),
{
    let lt = |a: usize, b: usize| g.cheaper(slots, pos, a, b);
    let open = g.openings(slots, pos);
    lemma_upto(slots.len());
    assert(open.subset_of(upto(slots.len())));
    vstd::set_lib::lemma_len_subset(open, upto(slots.len()));
    lemma_cheaper_orders(g, slots, pos);
    crate::listing::lemma_listing(open, lt);
    assert forall|k: int| 0 <= k < g.options(slots, pos).len() implies open.contains(
        #[trigger] g.options(slots, pos)[k],
    ) by {
        assert(g.options(slots, pos).to_set().contains(g.options(slots, pos)[k]));
    }
}

/// There are never more machines than patterns assigned.
pub proof fn lemma_tidy_len(g: Ground, pos: nat, slots: Seq<Slot>, secs: nat, covered: Set<usize>)
    requires
        g.sound(),
        pos <= g.order.len(),
        g.tidy(pos, slots, secs, covered),
    ensures
        slots.len() <= pos <= usize::MAX,
{
    reveal(Ground::tidy);
    let parts = index_sets(slot_lists(slots));
    assert(parts.len() == slots.len());
    let q = g.order.take(pos as int);
    crate::partition::lemma_splits_len(parts, g.assigned(pos));
    q.lemma_cardinality_of_set();
}

/// The search keeps a feasible best assignment, never a worse one, and its node count.
pub proof fn lemma_visit_proper(
    g: Ground,
    h: Hunt,
    pos: nat,
    slots: Seq<Slot>,
    secs: nat,
    covered: Set<usize>,
)
    requires
        g.sound(),
        pos <= g.order.len(),
        g.tidy(pos, slots, secs, covered),
        g.proper(h.best, h.best_score),
    ensures
        g.proper(
            g.visit(h, pos, slots, secs, covered).best,
            g.visit(h, pos, slots, secs, covered).best_score,
        ),
        !beats(h.best_score, g.visit(h, pos, slots, secs, covered).best_score),
        h.nodes <= g.visit(h, pos, slots, secs, covered).nodes,
        h.nodes <= crate::hunt::NODE_BUDGET ==> g.visit(h, pos, slots, secs, covered).nodes
            <= crate::hunt::NODE_BUDGET,
    decreases g.order.len() - pos, 1int, 0int,
{
    if h.best_score == g.bound || h.nodes >= crate::hunt::NODE_BUDGET {
    } else if g.hopeless(h.best_score, slots.len(), secs, covered) {
    } else if pos == g.order.len() {
        reveal(Ground::tidy);
        reveal(Ground::proper);
        lemma_assigned_ends(g);
        let lists = slot_lists(slots);
        assert(gathered(indexed(g.shapes), index_sets(lists)) =~= slot_shapes(slots));
        assert forall|i: int| 0 <= i < index_sets(lists).len() implies g.rates.fits(
            gather(indexed(g.shapes), #[trigger] index_sets(lists)[i]),
            g.now,
        ) by {
            assert(g.rates.fits(slots[i].shape, g.now));
        }
        assert forall|i: int| 0 <= i < lists.len() implies (
        #[trigger] lists[i]).no_duplicates() by {
            assert(slots[i].patterns.no_duplicates());
        }
        assert(g.proper(lists, (slots.len(), secs)));
    } else if h.seen.contains((pos, load(slots))) {
    } else {
        lemma_tries_proper(
            g,
            Hunt { seen: h.seen.insert((pos, load(slots))), nodes: h.nodes + 1, ..h },
            pos,
            slots,
            secs,
            covered,
            0,
        );
    }
}

pub proof fn lemma_tries_proper(
    g: Ground,
    h: Hunt,
    pos: nat,
    slots: Seq<Slot>,
    secs: nat,
    covered: Set<usize>,
    k: nat,
)
    requires
        g.sound(),
        pos < g.order.len(),
        g.tidy(pos, slots, secs, covered),
        g.proper(h.best, h.best_score),
    ensures
        g.proper(
            g.tries(h, pos, slots, secs, covered, k).best,
            g.tries(h, pos, slots, secs, covered, k).best_score,
        ),
        !beats(h.best_score, g.tries(h, pos, slots, secs, covered, k).best_score),
        h.nodes <= g.tries(h, pos, slots, secs, covered, k).nodes,
        h.nodes <= crate::hunt::NODE_BUDGET ==> g.tries(h, pos, slots, secs, covered, k).nodes
            <= crate::hunt::NODE_BUDGET,
    decreases g.order.len() - pos, 0int, g.options(slots, pos).len() - k,
{
    let options = g.options(slots, pos);
    let wider = covered.union(g.job(pos).checks);
    lemma_tidy_len(g, pos, slots, secs, covered);
    lemma_options(g, slots, pos);
    if k < options.len() {
        let i = options[k as int];
        let more = (secs + extra(g.rates, slots[i as int].shape, g.job(pos))) as nat;
        lemma_tidy_filled(g, pos, slots, secs, covered, i);
        lemma_visit_proper(g, h, pos + 1, g.filled(slots, pos, i), more, wider);
        let after = g.visit(h, pos + 1, g.filled(slots, pos, i), more, wider);
        if !(after.exhausted || after.best_score == g.bound) {
            lemma_tries_proper(g, after, pos, slots, secs, covered, k + 1);
        }
    } else if slots.len() < h.best_score.0 {
        lemma_tidy_opened(g, pos, slots, secs, covered);
        lemma_visit_proper(
            g,
            h,
            pos + 1,
            g.opened(slots, pos),
            secs + g.rates.duration(g.job(pos).checks),
            wider,
        );
    }
}

} // verus!
