//! The arithmetic of demands: which checks have to run, and by when.
use vstd::prelude::*;

verus! {

/// What a job, or a batch of jobs, asks for: its checks, all finished by its deadline.
pub struct Shape {
    pub checks: Set<usize>,
    pub deadline: u64,
}

/// How long things take: startup, and each check by its index.
pub struct Rates {
    pub boot: u64,
    pub checks: Seq<u64>,
}

/// The seconds spent on those of the first `n` checks that are in `checks`.
pub open spec fn work_upto(rates: Seq<u64>, checks: Set<usize>, n: nat) -> nat
    decreases n,
{
    if n == 0 {
        0
    } else {
        work_upto(rates, checks, (n - 1) as nat) + if checks.contains((n - 1) as usize) {
            rates[n - 1] as nat
        } else {
            0
        }
    }
}

impl Rates {
    /// The seconds that running each of `checks` once takes.
    pub open spec fn work(self, checks: Set<usize>) -> nat {
        work_upto(self.checks, checks, self.checks.len())
    }

    /// The seconds that a machine running `checks` is up.
    pub open spec fn duration(self, checks: Set<usize>) -> nat {
        self.boot as nat + self.work(checks)
    }

    /// The last moment at which a demand can start, negative if it never can.
    pub open spec fn latest(self, shape: Shape) -> int {
        shape.deadline - self.duration(shape.checks)
    }

    /// A batch with this demand can still wait until `now`.
    pub open spec fn fits(self, shape: Shape, now: u64) -> bool {
        now <= self.latest(shape)
    }
}

/// Every check of the demand has a rate.
pub open spec fn known(shape: Shape, n: nat) -> bool {
    forall|c: usize| #[trigger] shape.checks.contains(c) ==> c < n
}

/// The demand of two batches run as one.
pub open spec fn join(a: Shape, b: Shape) -> Shape {
    Shape {
        checks: a.checks.union(b.checks),
        deadline: if a.deadline <= b.deadline {
            a.deadline
        } else {
            b.deadline
        },
    }
}

/// No checks, no deadline.
pub open spec fn idle() -> Shape {
    Shape { checks: Set::empty(), deadline: u64::MAX }
}

/// Every check that some member of `block` asks for.
pub open spec fn checks_of(items: Map<usize, Shape>, block: Set<usize>) -> Set<usize> {
    Set::new(|c: usize| exists|t: usize| #[trigger] block.contains(t) && items[t].checks.contains(c))
}

/// `d` is the earliest deadline in `block`.
pub open spec fn is_earliest(items: Map<usize, Shape>, block: Set<usize>, d: u64) -> bool {
    &&& forall|t: usize| #[trigger] block.contains(t) ==> d <= items[t].deadline
    &&& d == u64::MAX || exists|t: usize| #[trigger] block.contains(t) && items[t].deadline == d
}

/// The earliest deadline in `block`.
pub open spec fn earliest(items: Map<usize, Shape>, block: Set<usize>) -> u64 {
    choose|d: u64| is_earliest(items, block, d)
}

/// The demand of a block of items run as one batch.
pub open spec fn gather(items: Map<usize, Shape>, block: Set<usize>) -> Shape {
    Shape { checks: checks_of(items, block), deadline: earliest(items, block) }
}

// Work.

pub proof fn lemma_work_upto_monotone(rates: Seq<u64>, a: Set<usize>, b: Set<usize>, n: nat)
    requires
        a.subset_of(b),
        n <= rates.len(),
    ensures
        work_upto(rates, a, n) <= work_upto(rates, b, n),
    decreases n,
{
    if n > 0 {
        lemma_work_upto_monotone(rates, a, b, (n - 1) as nat);
    }
}

pub proof fn lemma_work_monotone(rates: Rates, a: Set<usize>, b: Set<usize>)
    requires
        a.subset_of(b),
    ensures
        rates.work(a) <= rates.work(b),
        rates.duration(a) <= rates.duration(b),
{
    lemma_work_upto_monotone(rates.checks, a, b, rates.checks.len());
}

proof fn lemma_work_upto_union(rates: Seq<u64>, a: Set<usize>, b: Set<usize>, n: nat)
    ensures
        work_upto(rates, a.union(b), n) + work_upto(rates, a.intersect(b), n) == work_upto(
            rates,
            a,
            n,
        ) + work_upto(rates, b, n),
    decreases n,
{
    if n > 0 {
        lemma_work_upto_union(rates, a, b, (n - 1) as nat);
    }
}

/// Checks that two batches share are paid for once when they run as one.
pub proof fn lemma_work_union(rates: Rates, a: Set<usize>, b: Set<usize>)
    ensures
        rates.work(a.union(b)) + rates.work(a.intersect(b)) == rates.work(a) + rates.work(b),
        rates.work(a.union(b)) <= rates.work(a) + rates.work(b),
{
    lemma_work_upto_union(rates.checks, a, b, rates.checks.len());
}

/// A batch that already covers more pays less for further checks.
pub proof fn lemma_work_marginal(rates: Rates, a: Set<usize>, b: Set<usize>, extra: Set<usize>)
    requires
        a.subset_of(b),
    ensures
        rates.work(b.union(extra)) - rates.work(b) <= rates.work(a.union(extra)) - rates.work(a),
{
    lemma_work_union(rates, a, extra);
    lemma_work_union(rates, b, extra);
    lemma_work_monotone(rates, a.intersect(extra), b.intersect(extra));
}

pub proof fn lemma_work_upto_empty(rates: Seq<u64>, n: nat)
    ensures
        work_upto(rates, Set::empty(), n) == 0,
    decreases n,
{
    if n > 0 {
        lemma_work_upto_empty(rates, (n - 1) as nat);
    }
}

proof fn lemma_work_upto_insert(rates: Seq<u64>, checks: Set<usize>, c: usize, n: nat)
    requires
        !checks.contains(c),
        n <= usize::MAX,
    ensures
        work_upto(rates, checks.insert(c), n) == work_upto(rates, checks, n) + if c < n {
            rates[c as int] as nat
        } else {
            0
        },
    decreases n,
{
    if n > 0 {
        lemma_work_upto_insert(rates, checks, c, (n - 1) as nat);
    }
}

/// One more check costs its own duration.
pub proof fn lemma_work_insert(rates: Rates, checks: Set<usize>, c: usize)
    requires
        !checks.contains(c),
        c < rates.checks.len() <= usize::MAX,
    ensures
        rates.work(checks.insert(c)) == rates.work(checks) + rates.checks[c as int],
{
    lemma_work_upto_insert(rates.checks, checks, c, rates.checks.len());
}

pub proof fn lemma_work_empty(rates: Rates)
    ensures
        rates.work(Set::empty()) == 0,
{
    lemma_work_upto_empty(rates.checks, rates.checks.len());
}

pub proof fn lemma_work_upto_bound(rates: Seq<u64>, checks: Set<usize>, n: nat)
    requires
        n <= rates.len(),
    ensures
        work_upto(rates, checks, n) <= n * u64::MAX,
    decreases n,
{
    if n > 0 {
        lemma_work_upto_bound(rates, checks, (n - 1) as nat);
        assert(n * u64::MAX == (n - 1) * u64::MAX + u64::MAX) by (nonlinear_arith);
    }
}

/// The total fits 128 bits whenever the catalog fits in memory.
pub proof fn lemma_duration_bound(rates: Rates, checks: Set<usize>)
    requires
        rates.checks.len() <= usize::MAX,
    ensures
        rates.work(checks) <= rates.duration(checks) <= u128::MAX,
{
    let n = rates.checks.len();
    lemma_work_upto_bound(rates.checks, checks, n);
    assert(n * u64::MAX + u64::MAX <= u128::MAX) by (nonlinear_arith)
        requires
            n <= 0xffff_ffff_ffff_ffff,
    ;
}

// Joining.

pub proof fn lemma_join_monotone(rates: Rates, a: Shape, b: Shape)
    ensures
        rates.latest(join(a, b)) <= rates.latest(a),
        rates.latest(join(a, b)) <= rates.latest(b),
        rates.duration(a.checks) <= rates.duration(join(a, b).checks),
        rates.duration(b.checks) <= rates.duration(join(a, b).checks),
{
    lemma_work_monotone(rates, a.checks, join(a, b).checks);
    lemma_work_monotone(rates, b.checks, join(a, b).checks);
}

// Gathering.

pub proof fn lemma_earliest_exists(items: Map<usize, Shape>, block: Set<usize>)
    requires
        block.finite(),
    ensures
        is_earliest(items, block, earliest(items, block)),
    decreases block.len(),
{
    if block.len() == 0 {
        assert(block =~= Set::empty());
        assert(is_earliest(items, block, u64::MAX));
    } else {
        let t = block.choose();
        let rest = block.remove(t);
        lemma_earliest_exists(items, rest);
        let d = earliest(items, rest);
        let e = items[t].deadline;
        assert(forall|u: usize| #[trigger] rest.contains(u) ==> block.contains(u));
        assert(forall|u: usize| #[trigger] block.contains(u) ==> u == t || rest.contains(u));
        if e <= d {
            assert(block.contains(t) && items[t].deadline == e);
            assert(is_earliest(items, block, e));
        } else {
            assert(is_earliest(items, block, d));
        }
    }
}

pub proof fn lemma_earliest_unique(items: Map<usize, Shape>, block: Set<usize>, d: u64)
    requires
        is_earliest(items, block, d),
    ensures
        d == earliest(items, block),
{
    let e = earliest(items, block);
    assert(is_earliest(items, block, e));
    if d != u64::MAX {
        let t = choose|t: usize| #[trigger] block.contains(t) && items[t].deadline == d;
        assert(e <= d);
    }
    if e != u64::MAX {
        let t = choose|t: usize| #[trigger] block.contains(t) && items[t].deadline == e;
        assert(d <= e);
    }
}

/// The gathered demand of nothing is idle.
pub proof fn lemma_gather_empty(items: Map<usize, Shape>)
    ensures
        gather(items, Set::empty()) == idle(),
{
    assert(checks_of(items, Set::empty()) =~= Set::<usize>::empty());
    assert(is_earliest(items, Set::empty(), u64::MAX));
    lemma_earliest_unique(items, Set::empty(), u64::MAX);
}

/// Gathering blocks one after the other joins their demands.
pub proof fn lemma_gather_union(items: Map<usize, Shape>, a: Set<usize>, b: Set<usize>)
    requires
        a.finite(),
        b.finite(),
    ensures
        gather(items, a.union(b)) == join(gather(items, a), gather(items, b)),
{
    let u = a.union(b);
    assert forall|c: usize|
        checks_of(items, u).contains(c) == checks_of(items, a).union(
            checks_of(items, b),
        ).contains(c) by {
        if checks_of(items, u).contains(c) {
            let t = choose|t: usize| #[trigger] u.contains(t) && items[t].checks.contains(c);
            assert(a.contains(t) || b.contains(t));
        }
        if checks_of(items, a).contains(c) {
            let t = choose|t: usize| #[trigger] a.contains(t) && items[t].checks.contains(c);
            assert(u.contains(t));
        }
        if checks_of(items, b).contains(c) {
            let t = choose|t: usize| #[trigger] b.contains(t) && items[t].checks.contains(c);
            assert(u.contains(t));
        }
    }
    assert(checks_of(items, u) =~= checks_of(items, a).union(checks_of(items, b)));
    lemma_earliest_exists(items, a);
    lemma_earliest_exists(items, b);
    let d = join(gather(items, a), gather(items, b)).deadline;
    assert forall|t: usize| #[trigger] u.contains(t) implies d <= items[t].deadline by {
        assert(a.contains(t) || b.contains(t));
    }
    if d != u64::MAX {
        if d == earliest(items, a) {
            let t = choose|t: usize| #[trigger] a.contains(t) && items[t].deadline == d;
            assert(u.contains(t) && items[t].deadline == d);
        } else {
            let t = choose|t: usize| #[trigger] b.contains(t) && items[t].deadline == d;
            assert(u.contains(t) && items[t].deadline == d);
        }
    }
    assert(is_earliest(items, u, d));
    lemma_earliest_unique(items, u, d);
}

pub proof fn lemma_gather_one(items: Map<usize, Shape>, t: usize)
    ensures
        gather(items, set![t]) == items[t],
{
    let one: Set<usize> = set![t];
    assert(one.contains(t));
    assert forall|c: usize| checks_of(items, one).contains(c) == items[t].checks.contains(c) by {
        if items[t].checks.contains(c) {
            assert(one.contains(t) && items[t].checks.contains(c));
        }
    }
    assert(checks_of(items, one) =~= items[t].checks);
    assert(is_earliest(items, one, items[t].deadline));
    lemma_earliest_unique(items, one, items[t].deadline);
}

/// One more item joins the gathered demand.
pub proof fn lemma_gather_insert(items: Map<usize, Shape>, block: Set<usize>, t: usize)
    requires
        block.finite(),
    ensures
        gather(items, block.insert(t)) == join(gather(items, block), items[t]),
{
    assert(block.insert(t) =~= block.union(set![t]));
    lemma_gather_union(items, block, set![t]);
    lemma_gather_one(items, t);
}

/// Taking items out only shrinks the work and relaxes the deadline.
pub proof fn lemma_gather_shrinks(
    rates: Rates,
    items: Map<usize, Shape>,
    part: Set<usize>,
    whole: Set<usize>,
)
    requires
        part.subset_of(whole),
        whole.finite(),
    ensures
        gather(items, part).checks.subset_of(gather(items, whole).checks),
        gather(items, whole).deadline <= gather(items, part).deadline,
        rates.duration(gather(items, part).checks) <= rates.duration(gather(items, whole).checks),
        rates.latest(gather(items, whole)) <= rates.latest(gather(items, part)),
{
    let rest = whole.difference(part);
    vstd::set_lib::lemma_set_subset_finite(whole, part);
    assert(whole =~= part.union(rest));
    lemma_gather_union(items, part, rest);
    lemma_join_monotone(rates, gather(items, part), gather(items, rest));
}

/// Only the demands of the members matter.
pub proof fn lemma_gather_agree(
    items1: Map<usize, Shape>,
    items2: Map<usize, Shape>,
    block: Set<usize>,
)
    requires
        block.finite(),
        forall|t: usize| #[trigger] block.contains(t) ==> items1[t] == items2[t],
    ensures
        gather(items1, block) == gather(items2, block),
{
    assert forall|c: usize|
        checks_of(items1, block).contains(c) == checks_of(items2, block).contains(c) by {
        if checks_of(items1, block).contains(c) {
            let t = choose|t: usize| #[trigger] block.contains(t) && items1[t].checks.contains(c);
            assert(block.contains(t) && items2[t].checks.contains(c));
        }
        if checks_of(items2, block).contains(c) {
            let t = choose|t: usize| #[trigger] block.contains(t) && items2[t].checks.contains(c);
            assert(block.contains(t) && items1[t].checks.contains(c));
        }
    }
    assert(checks_of(items1, block) =~= checks_of(items2, block));
    lemma_earliest_exists(items1, block);
    let d = earliest(items1, block);
    if d != u64::MAX {
        let t = choose|t: usize| #[trigger] block.contains(t) && items1[t].deadline == d;
        assert(block.contains(t) && items2[t].deadline == d);
    }
    assert(is_earliest(items2, block, d));
    lemma_earliest_unique(items2, block, d);
}

/// The members' names do not matter.
pub proof fn lemma_gather_renamed(
    items1: Map<usize, Shape>,
    items2: Map<usize, Shape>,
    block: Set<usize>,
    rename: spec_fn(usize) -> usize,
)
    requires
        block.finite(),
        forall|t: usize| #[trigger] block.contains(t) ==> items1[t] == items2[rename(t)],
    ensures
        gather(items1, block) == gather(items2, block.map(rename)),
    decreases block.len(),
{
    if block.len() == 0 {
        assert(block =~= Set::empty());
        assert(block.map(rename) =~= Set::empty());
        lemma_gather_empty(items1);
        lemma_gather_empty(items2);
    } else {
        let t = block.choose();
        let rest = block.remove(t);
        assert(block =~= rest.insert(t));
        lemma_gather_renamed(items1, items2, rest, rename);
        lemma_gather_insert(items1, rest, t);
        rest.lemma_map_finite(rename);
        rest.lemma_set_map_insert_commute(t, rename);
        lemma_gather_insert(items2, rest.map(rename), rename(t));
    }
}

/// The demand is carried by its most urgent member.
pub proof fn lemma_gather_urgent(items: Map<usize, Shape>, block: Set<usize>)
    requires
        block.finite(),
        block.len() > 0,
    ensures
        exists|t: usize| #[trigger]
            block.contains(t) && items[t].deadline == gather(items, block).deadline,
        forall|t: usize| #[trigger]
            block.contains(t) ==> gather(items, block).deadline <= items[t].deadline
                && items[t].checks.subset_of(gather(items, block).checks),
{
    lemma_earliest_exists(items, block);
    let t = block.choose();
    assert(block.contains(t));
    assert forall|u: usize| #[trigger] block.contains(u) implies items[u].checks.subset_of(
        gather(items, block).checks,
    ) by {
        assert forall|c: usize| items[u].checks.contains(c) implies checks_of(
            items,
            block,
        ).contains(c) by {
            assert(block.contains(u) && items[u].checks.contains(c));
        }
    }
}

} // verus!
