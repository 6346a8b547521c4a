//! Larger waiting pools get a feasible plan first, then bounded improvement.
//! Exhausting the budget is a loss of optimality, never a loss of feasibility.
use std::collections::BTreeMap;

use vstd::multiset::Multiset;
use vstd::prelude::*;

use crate::arrange::arrange;
use crate::bound::lower_bound as bound_of;
use crate::checks::{increasing, Checks, Costs};
use crate::group::{lemma_covers_union, priced, rosters, teams, Group};
use crate::hunt::{
    difficulty, harder, lemma_harder_orders, load, slot_shapes, Ground, Hunt, Slot, NODE_BUDGET,
    PATTERN_LIMIT,
};
use crate::hunt_laws::{
    attains, index_sets, lemma_tidy_start, lemma_cheaper_orders, lemma_covered_total, lemma_options,
    lemma_tidy_filled, lemma_tidy_len, lemma_tidy_opened, lemma_visit_proper, slot_lists,
};
use crate::listing::{ascending, upto, lemma_ascending_unique, lemma_listing_unique, lists};
use crate::memo::{slots, Bin, Level};
use crate::partition::{
    feasible, indexed, inhabited, lemma_seconds_bound, score as score_of, splits,
};
use crate::plan::{field, held, holders, hunted, improved, made_of, nodes, opening, stopped};
use crate::plan_laws::{lemma_field, lemma_opening};
use crate::planner::{everything, lemma_bound_fits, lemma_seconds_fit, lower_bound, score};
use crate::policy::Stats;
use crate::roster::{improved_lists, strung, strung_all};
use crate::shape::{join, lemma_gather_insert, lemma_gather_one, lemma_join_monotone, Shape};
use crate::team::{
    bundle, bundles, crew_of, crews, extra, lemma_crew_empty, lemma_crew_insert, on_time, shapes,
};

verus! {

/// A machine that could take in the next pattern, and what it would ask for then.
struct Fit {
    extra: u128,
    index: usize,
    checks: Checks,
    deadline: u64,
}

spec fn fit_indexes(fits: Seq<Fit>) -> Seq<usize> {
    fits.map_values(|fit: Fit| fit.index)
}

spec fn fit_right(fit: Fit, costs: Costs, base: Shape, job: Shape) -> bool {
    &&& costs.covers(fit.checks)
    &&& join(base, job) == Shape { checks: fit.checks@, deadline: fit.deadline }
    &&& fit.extra == extra(costs@, base, job)
}

/// The best assignment so far, and where the search has been.
pub struct Search<'a> {
    patterns: &'a Vec<Group>,
    costs: &'a Costs,
    now: u64,
    order: Vec<usize>,
    best: Vec<Vec<usize>>,
    best_score: (usize, u128),
    bound: (usize, u128),
    total_work: u128,
    nodes: usize,
    exhausted: bool,
    seen: Vec<Level>,
}

pub open spec fn bins_priced(costs: Costs, bins: Seq<Bin>) -> bool {
    forall|i: int| 0 <= i < bins.len() ==> costs.covers((#[trigger] bins[i]).checks)
}

spec fn index_lists(lists: Seq<Vec<usize>>) -> Seq<Seq<usize>> {
    lists.map_values(|list: Vec<usize>| list@)
}

spec fn seen_at(levels: Seq<Level>) -> Set<(nat, Multiset<Shape>)> {
    Set::new(
        |state: (nat, Multiset<Shape>)|
            state.0 < levels.len() && levels[state.0 as int]@.contains(state.1),
    )
}

impl<'a> Search<'a> {
    /// What the search works on.
    pub closed spec fn ground(self) -> Ground {
        Ground {
            rates: self.costs@,
            now: self.now,
            shapes: shapes(teams(self.patterns@)),
            order: self.order@,
            bound: (self.bound.0 as nat, self.bound.1 as nat),
            total_work: self.total_work as nat,
        }
    }

    /// What the search knows.
    pub closed spec fn hunt(self) -> Hunt {
        Hunt {
            best: index_lists(self.best@),
            best_score: (self.best_score.0 as nat, self.best_score.1 as nat),
            nodes: self.nodes as nat,
            exhausted: self.exhausted,
            seen: seen_at(self.seen@),
        }
    }

    pub closed spec fn inv(self) -> bool {
        let g = self.ground();
        &&& g.sound()
        &&& g.bound == bound_of(g.rates, g.now, g.shapes)
        &&& g.proper(self.hunt().best, self.hunt().best_score)
        &&& g.shapes.len() <= PATTERN_LIMIT
        &&& priced(*self.costs, self.patterns@)
        &&& self.seen.len() == self.order.len()
    }
}

/// Machines that are on time take seconds that fit.
proof fn lemma_tidy_secs(g: Ground, pos: nat, slots: Seq<Slot>, secs: nat, covered: Set<usize>)
    requires
        g.sound(),
        g.bound == bound_of(g.rates, g.now, g.shapes),
        g.shapes.len() <= PATTERN_LIMIT,
        pos <= g.order.len(),
        g.tidy(pos, slots, secs, covered),
    ensures
        slots.len() <= PATTERN_LIMIT,
        secs <= PATTERN_LIMIT * u64::MAX,
        g.total_work <= PATTERN_LIMIT * u64::MAX,
        g.bound.0 <= PATTERN_LIMIT,
        g.rates.work(covered) <= g.total_work,
{
    let s = slot_shapes(slots);
    lemma_tidy_len(g, pos, slots, secs, covered);
    lemma_covered_total(g, pos);
    reveal(Ground::tidy);
    assert forall|i: int| 0 <= i < s.len() implies g.rates.duration((#[trigger] s[i]).checks)
        <= u64::MAX by {
        assert(g.rates.fits(slots[i].shape, g.now));
    }
    lemma_seconds_bound(g.rates, s, u64::MAX as nat);
    lemma_bound_fits(g.rates, g.now, g.shapes);
}

impl<'a> Search<'a> {
    /// The machines to try for the pattern at `position`, cheapest first.
    fn fits(&self, position: usize, bins: &Vec<Bin>) -> (fits: Vec<Fit>)
        requires
            self.inv(),
            position < self.ground().order.len(),
            bins_priced(*self.costs, bins@),
        ensures
            fit_indexes(fits@) == self.ground().options(slots(bins@), position as nat),
            forall|k: int|
                0 <= k < fits.len() ==> (#[trigger] fits@[k]).index < bins.len() && fit_right(
                    fits@[k],
                    *self.costs,
                    bins@[fits@[k].index as int]@.shape,
                    self.ground().job(position as nat),
                ),
    {
        let ghost g = self.ground();
        let ghost pos = position as nat;
        let ghost open = g.openings(slots(bins@), pos);
        let ghost lt = |a: usize, b: usize| g.cheaper(slots(bins@), pos, a, b);
        let ghost job = g.job(pos);
        proof {
            assert(g.order.to_set().contains(g.order[position as int]));
        }
        let pattern: &Group = &self.patterns[self.order[position]];
        assert(job == pattern@.shape);
        let mut fits: Vec<Fit> = Vec::new();
        let mut i: usize = 0;
        assert(fit_indexes(fits@).to_set() =~= Set::empty());
        while i < bins.len()
            invariant
                g == self.ground(),
                open == g.openings(slots(bins@), pos),
                lt == (|a: usize, b: usize| g.cheaper(slots(bins@), pos, a, b)),
                job == g.job(pos),
                job == pattern@.shape,
                self.costs.covers(pattern.checks),
                bins_priced(*self.costs, bins@),
                i <= bins.len(),
                lists(fit_indexes(fits@), open.filter(|x: usize| x < i), lt),
                forall|k: int|
                    0 <= k < fits.len() ==> (#[trigger] fits@[k]).index < i && fit_right(
                        fits@[k],
                        *self.costs,
                        bins@[fits@[k].index as int]@.shape,
                        job,
                    ),
            decreases bins.len() - i,
        {
            let bin: &Bin = &bins[i];
            let ghost all = slots(bins@);
            let ghost before = open.filter(|x: usize| x < i);
            let ghost after = open.filter(|x: usize| x < i + 1);
            assert(all[i as int] == bin@);
            let mut first: bool = true;
            let mut j: usize = 0;
            while j < i && first
                invariant
                    bins_priced(*self.costs, bins@),
                    i < bins.len(),
                    bin == bins@[i as int],
                    j <= i,
                    first ==> forall|k: int|
                        0 <= k < j ==> (#[trigger] bins@[k])@.shape != bin@.shape,
                    !first ==> exists|k: int|
                        0 <= k < i && (#[trigger] bins@[k])@.shape == bin@.shape,
                decreases i - j,
            {
                if bins[j].deadline == bin.deadline && bins[j].checks.same(&bin.checks) {
                    first = false;
                }
                j = j + 1;
            }
            let union: Checks = bin.checks.union(&pattern.checks);
            let oldest: u64 = if bin.deadline <= pattern.deadline {
                bin.deadline
            } else {
                pattern.deadline
            };
            proof {
                lemma_covers_union(*self.costs, bin.checks, pattern.checks, union);
                assert(join(bin@.shape, job) == Shape { checks: union@, deadline: oldest });
                lemma_join_monotone(self.costs@, bin@.shape, job);
                if first {
                    assert forall|k: int| 0 <= k < i implies (#[trigger] all[k]).shape
                        != all[i as int].shape by {
                        assert(all[k] == bins@[k]@);
                    }
                } else {
                    let k = choose|k: int|
                        0 <= k < i && (#[trigger] bins@[k])@.shape == bin@.shape;
                    assert(all[k].shape == all[i as int].shape);
                }
            }
            let room: bool = match self.costs.latest(&union, oldest) {
                Some(latest) => latest >= self.now,
                None => false,
            };
            assert(open.contains(i) == (first && room));
            if first && room {
                let cost: u128 = self.costs.duration(&union) - self.costs.duration(&bin.checks);
                let mut place: usize = fits.len();
                let ghost q = fit_indexes(fits@);
                while place > 0 && fits[place - 1].extra > cost
                    invariant
                        place <= fits.len(),
                        forall|k: int| place <= k < fits.len() ==> (#[trigger] fits@[k]).extra > cost,
                    decreases place,
                {
                    place = place - 1;
                }
                let ghost old_fits = fits@;
                fits.insert(
                    place,
                    Fit { extra: cost, index: i, checks: union, deadline: oldest },
                );
                proof {
                    let r = fit_indexes(fits@);
                    assert(r =~= q.insert(place as int, i));
                    assert(after =~= before.insert(i));
                    assert forall|k: int| 0 <= k < place implies lt(#[trigger] q[k], i) by {
                        assert(q[k] == old_fits[k].index);
                        assert(q[place - 1] == old_fits[place - 1].index);
                        if k < place - 1 {
                            assert(lt(q[k], q[place - 1]));
                        }
                        assert(all[q[k] as int] == bins@[q[k] as int]@);
                        assert(all[q[place - 1] as int] == bins@[q[place - 1] as int]@);
                    }
                    assert forall|k: int| place <= k < q.len() implies lt(i, #[trigger] q[k]) by {
                        assert(q[k] == old_fits[k].index);
                        assert(all[q[k] as int] == bins@[q[k] as int]@);
                    }
                    lemma_lists_insert(q, before, lt, place as int, i);
                    assert forall|k: int| 0 <= k < fits@.len() implies (#[trigger] fits@[k]).index
                        < i + 1 && fit_right(
                        fits@[k],
                        *self.costs,
                        bins@[fits@[k].index as int]@.shape,
                        job,
                    ) by {
                        if k < place {
                            assert(fits@[k] == old_fits[k]);
                        } else if k > place {
                            assert(fits@[k] == old_fits[k - 1]);
                        }
                    }
                }
            } else {
                assert(after =~= before);
            }
            i = i + 1;
        }
        proof {
            assert(open.filter(|x: usize| x < i) =~= open);
            lemma_cheaper_orders(g, slots(bins@), pos);
            lemma_listing_unique(fit_indexes(fits@), open, lt);
        }
        fits
    }
}

/// Inserting in the right place keeps a listing.
pub proof fn lemma_lists_insert(
    q: Seq<usize>,
    s: Set<usize>,
    lt: spec_fn(usize, usize) -> bool,
    p: int,
    x: usize,
)
    requires
        lists(q, s, lt),
        0 <= p <= q.len(),
        forall|k: int| 0 <= k < p ==> lt(#[trigger] q[k], x),
        forall|k: int| p <= k < q.len() ==> lt(x, #[trigger] q[k]),
    ensures
        lists(q.insert(p, x), s.insert(x), lt),
{
    let r = q.insert(p, x);
    assert forall|y: usize| s.insert(x).contains(y) <==> r.to_set().contains(y) by {
        if s.insert(x).contains(y) {
            if y == x {
                assert(r[p] == y);
            } else {
                assert(q.to_set().contains(y));
                let k = choose|k: int| 0 <= k < q.len() && q[k] == y;
                if k < p {
                    assert(r[k] == y);
                } else {
                    assert(r[k + 1] == y);
                }
            }
        }
        if r.to_set().contains(y) {
            let k = choose|k: int| 0 <= k < r.len() && r[k] == y;
            if k < p {
                assert(q[k] == y);
                assert(q.to_set().contains(y));
            } else if k > p {
                assert(q[k - 1] == y);
                assert(q.to_set().contains(y));
            }
        }
    }
    assert(r.to_set() =~= s.insert(x));
    assert forall|i: int, j: int| 0 <= i < j < r.len() implies lt(
        #[trigger] r[i],
        #[trigger] r[j],
    ) by {
        let a = if i < p {
            i
        } else {
            i - 1
        };
        let b = if j < p {
            j
        } else {
            j - 1
        };
        if i != p {
            assert(r[i] == q[a]);
        }
        if j != p {
            assert(r[j] == q[b]);
        }
    }
}

impl<'a> Search<'a> {
    /// No ending from here can beat the best score.
    fn hopeless(&self, count: usize, seconds: u128, covered: &Checks) -> (cut: bool)
        requires
            count <= PATTERN_LIMIT,
            seconds <= PATTERN_LIMIT * u64::MAX,
            self.total_work <= PATTERN_LIMIT * u64::MAX,
            self.bound.0 <= PATTERN_LIMIT,
            self.costs.covers(*covered),
            self.costs@.work(covered@) <= self.total_work,
        ensures
            cut == self.ground().hopeless(
                self.hunt().best_score,
                count as nat,
                seconds as nat,
                covered@,
            ),
    {
        let possible: usize = if self.bound.0 <= count {
            count
        } else {
            self.bound.0
        };
        // Every uncovered check must be paid for at least once. Already-open
        // bins cannot disappear in this branch, and reaching the VM lower
        // bound may require more startup charges. This deliberately ignores
        // duplicate future execution, keeping the cost estimate optimistic.
        let missing: u128 = self.total_work - self.costs.work(covered);
        let starts: u128 = (possible - count) as u128;
        let boot: u128 = self.costs.boot as u128;
        assert(starts * boot <= 64 * 0xffff_ffff_ffff_ffff) by (nonlinear_arith)
            requires
                starts <= 64,
                boot <= 0xffff_ffff_ffff_ffff,
        ;
        let least: u128 = seconds + missing + starts * boot;
        possible > self.best_score.0 || possible == self.best_score.0 && least
            >= self.best_score.1
    }

    /// Assigns the patterns from `position` on, in every way that could still win.
    fn visit(&mut self, position: usize, bins: &mut Vec<Bin>, seconds: u128, covered: &Checks)
        requires
            old(self).inv(),
            position <= old(self).ground().order.len(),
            bins_priced(*old(self).costs, old(bins)@),
            old(self).costs.covers(*covered),
            old(self).ground().tidy(
                position as nat,
                slots(old(bins)@),
                seconds as nat,
                covered@,
            ),
        ensures
            final(self).inv(),
            final(self).ground() == old(self).ground(),
            final(self).costs == old(self).costs,
            final(self).patterns == old(self).patterns,
            final(self).hunt() == old(self).ground().visit(
                old(self).hunt(),
                position as nat,
                slots(old(bins)@),
                seconds as nat,
                covered@,
            ),
            slots(final(bins)@) == slots(old(bins)@),
            bins_priced(*old(self).costs, final(bins)@),
        decreases old(self).ground().order.len() - position, 1int,
    {
        let ghost g = self.ground();
        let ghost was = self.hunt();
        let ghost pos = position as nat;
        let ghost all = slots(bins@);
        let ghost secs = seconds as nat;
        proof {
            lemma_tidy_secs(g, pos, all, secs, covered@);
        }
        if self.best_score.0 == self.bound.0 && self.best_score.1 == self.bound.1 {
            return;
        }
        if self.nodes >= NODE_BUDGET {
            self.exhausted = true;
            return;
        }
        self.nodes = self.nodes + 1;
        let ghost counted = Hunt { nodes: was.nodes + 1, ..was };
        assert(self.hunt() == counted);
        assert(self.ground() == g);
        if self.hopeless(bins.len(), seconds, covered) {
            return;
        }
        if position == self.order.len() {
            if bins.len() < self.best_score.0 || bins.len() == self.best_score.0 && seconds
                < self.best_score.1 {
                self.best_score = (bins.len(), seconds);
                self.best = pattern_lists(bins);
                proof {
                    lemma_visit_proper(g, was, pos, all, secs, covered@);
                    assert(index_lists(self.best@) =~= all.map_values(
                        |slot: Slot| slot.patterns,
                    ));
                }
            }
            return;
        }
        // At a fixed position the unassigned patterns are identical. Future
        // choices depend only on each bin's check union and oldest deadline,
        // not its member identities or order. Such states have equal cost.
        let ghost before = self.seen@;
        let fresh: bool = self.seen[position].note(bins);
        proof {
            assert(seen_at(self.seen@) =~= seen_at(before).insert((pos, load(all))));
            assert(seen_at(before).contains((pos, load(all))) == !fresh);
            assert(self.ground() == g);
        }
        if !fresh {
            assert(self.hunt().seen =~= was.seen);
            return;
        }
        self.branch(position, bins, seconds, covered);
    }

    /// Tries every machine for the pattern at `position`, then one of its own.
    fn branch(&mut self, position: usize, bins: &mut Vec<Bin>, seconds: u128, covered: &Checks)
        requires
            old(self).inv(),
            position < old(self).ground().order.len(),
            bins_priced(*old(self).costs, old(bins)@),
            old(self).costs.covers(*covered),
            old(self).ground().tidy(
                position as nat,
                slots(old(bins)@),
                seconds as nat,
                covered@,
            ),
        ensures
            final(self).inv(),
            final(self).ground() == old(self).ground(),
            final(self).costs == old(self).costs,
            final(self).patterns == old(self).patterns,
            final(self).hunt() == old(self).ground().tries(
                old(self).hunt(),
                position as nat,
                slots(old(bins)@),
                seconds as nat,
                covered@,
                0,
            ),
            slots(final(bins)@) == slots(old(bins)@),
            bins_priced(*old(self).costs, final(bins)@),
        decreases old(self).ground().order.len() - position, 0int,
    {
        let ghost g = self.ground();
        let ghost was = self.hunt();
        let ghost pos = position as nat;
        let ghost all = slots(bins@);
        let ghost secs = seconds as nat;
        let ghost job = g.job(pos);
        let ghost costs = *self.costs;
        proof {
            assert(g.order.to_set().contains(g.order[position as int]));
            lemma_tidy_secs(g, pos, all, secs, covered@);
            lemma_options(g, all, pos);
        }
        let pattern: usize = self.order[position];
        let checks: Checks = self.patterns[pattern].checks.clone();
        let deadline: u64 = self.patterns[pattern].deadline;
        let duration: u128 = self.costs.duration(&checks);
        let wider: Checks = covered.union(&checks);
        proof {
            assert(job == self.patterns@[pattern as int]@.shape);
            lemma_covers_union(costs, *covered, checks, wider);
        }
        let fits: Vec<Fit> = self.fits(position, bins);
        let mut k: usize = 0;
        while k < fits.len()
            invariant
                self.inv(),
                self.ground() == g,
                *self.costs == costs,
                self.costs == old(self).costs,
                self.patterns == old(self).patterns,
                g == old(self).ground(),
                was == old(self).hunt(),
                all == slots(old(bins)@),
                position < g.order.len(),
                pos == position,
                secs == seconds,
                job == g.job(pos),
                pattern == g.order[pos as int],
                slots(bins@) == all,
                bins_priced(costs, bins@),
                costs.covers(wider),
                wider@ == covered@.union(job.checks),
                g.tidy(pos, all, secs, covered@),
                fit_indexes(fits@) == g.options(all, pos),
                forall|j: int|
                    0 <= j < g.options(all, pos).len() ==> g.openings(all, pos).contains(
                        #[trigger] g.options(all, pos)[j],
                    ),
                forall|j: int|
                    0 <= j < fits.len() ==> (#[trigger] fits@[j]).index < all.len() && fit_right(
                        fits@[j],
                        costs,
                        all[fits@[j].index as int].shape,
                        job,
                    ),
                k <= fits.len(),
                g.tries(was, pos, all, secs, covered@, 0) == g.tries(
                    self.hunt(),
                    pos,
                    all,
                    secs,
                    covered@,
                    k as nat,
                ),
            decreases fits.len() - k,
        {
            let index: usize = fits[k].index;
            let more: u128 = fits[k].extra;
            proof {
                assert(fit_indexes(fits@)[k as int] == index);
                assert(g.openings(all, pos).contains(index));
                assert(all[index as int] == bins@[index as int]@);
                lemma_tidy_filled(g, pos, all, secs, covered@, index);
                let next = g.filled(all, pos, index);
                lemma_tidy_secs(g, pos + 1, next, (secs + more) as nat, wider@);
            }
            let old_bin: Bin = bins[index].clone();
            let mut list: Vec<usize> = bins[index].patterns.clone();
            list.push(pattern);
            let filled: Bin = Bin {
                checks: fits[k].checks.clone(),
                deadline: fits[k].deadline,
                patterns: list,
            };
            bins.set(index, filled);
            assert(slots(bins@) =~= g.filled(all, pos, index));
            self.visit(position + 1, bins, seconds + more, &wider);
            proof {
                assert(bins@.len() == slots(bins@).len());
                assert forall|j: int| 0 <= j < bins@.len() && j != index implies (
                #[trigger] bins@[j])@ == all[j] by {
                    assert(slots(bins@)[j] == bins@[j]@);
                }
            }
            bins.set(index, old_bin);
            assert(slots(bins@) =~= all);
            if self.exhausted || self.best_score.0 == self.bound.0 && self.best_score.1
                == self.bound.1 {
                return;
            }
            k = k + 1;
        }
        if bins.len() < self.best_score.0 {
            proof {
                assert(all.len() == bins@.len());
                lemma_tidy_opened(g, pos, all, secs, covered@);
                let next = g.opened(all, pos);
                lemma_tidy_secs(g, pos + 1, next, secs + duration as nat, wider@);
            }
            bins.push(Bin { checks, deadline, patterns: vec![pattern] });
            proof {
                assert(bins@.last().patterns@ =~= seq![pattern]);
                assert(slots(bins@) =~= g.opened(all, pos));
            }
            self.visit(position + 1, bins, seconds + duration, &wider);
            proof {
                assert(bins@.len() == slots(bins@).len());
                assert forall|j: int| 0 <= j < bins@.len() implies (#[trigger] bins@[j])@
                    == g.opened(all, pos)[j] by {
                    assert(slots(bins@)[j] == bins@[j]@);
                }
            }
            let _ = bins.pop();
            assert(slots(bins@) =~= all);
        }
    }
}

/// The patterns on each machine.
fn pattern_lists(bins: &Vec<Bin>) -> (lists: Vec<Vec<usize>>)
    ensures
        index_lists(lists@) == slot_lists(slots(bins@)),
{
    let mut lists: Vec<Vec<usize>> = Vec::new();
    let mut i: usize = 0;
    while i < bins.len()
        invariant
            i <= bins.len(),
            lists.len() == i,
            forall|k: int| 0 <= k < i ==> (#[trigger] lists@[k])@ == bins@[k].patterns@,
        decreases bins.len() - i,
    {
        lists.push(bins[i].patterns.clone());
        i = i + 1;
    }
    assert(index_lists(lists@) =~= slot_lists(slots(bins@)));
    lists
}

/// Which pattern each job belongs to.
fn owners_of(patterns: &Vec<Group>) -> (owners: BTreeMap<usize, usize>)
    requires
        splits(crews(teams(patterns@)), held(teams(patterns@))),
    ensures
        forall|t: usize| #[trigger]
            owners@.contains_key(t) ==> owners@[t] < patterns.len()
                && patterns@[owners@[t] as int]@.members.contains(t),
        forall|i: int, t: usize|
            0 <= i < patterns.len() && #[trigger] patterns@[i]@.members.contains(t)
                ==> owners@.contains_key(t) && owners@[t] == i,
{
    let ghost all = teams(patterns@);
    let mut owners: BTreeMap<usize, usize> = BTreeMap::new();
    let mut i: usize = 0;
    while i < patterns.len()
        invariant
            all == teams(patterns@),
            splits(crews(all), held(all)),
            i <= patterns.len(),
            forall|t: usize| #[trigger]
                owners@.contains_key(t) ==> owners@[t] < i
                    && patterns@[owners@[t] as int]@.members.contains(t),
            forall|j: int, t: usize|
                0 <= j < i && #[trigger] patterns@[j]@.members.contains(t)
                    ==> owners@.contains_key(t) && owners@[t] == j,
        decreases patterns.len() - i,
    {
        let members: &Vec<usize> = &patterns[i].members;
        let mut k: usize = 0;
        while k < members.len()
            invariant
                all == teams(patterns@),
                splits(crews(all), held(all)),
                i < patterns.len(),
                members@ == patterns@[i as int].members@,
                k <= members.len(),
                forall|t: usize| #[trigger]
                    owners@.contains_key(t) ==> owners@[t] <= i
                        && patterns@[owners@[t] as int]@.members.contains(t),
                forall|j: int, t: usize|
                    0 <= j < i && #[trigger] patterns@[j]@.members.contains(t)
                        ==> owners@.contains_key(t) && owners@[t] == j,
                forall|m: int|
                    0 <= m < k ==> owners@.contains_key(#[trigger] members@[m])
                        && owners@[members@[m]] == i,
            decreases members.len() - k,
        {
            let token: usize = members[k];
            assert(patterns@[i as int]@.members.contains(token)) by {
                assert(members@[k as int] == token);
            }
            assert forall|j: int|
                0 <= j < i implies !#[trigger] patterns@[j]@.members.contains(token) by {
                if patterns@[j]@.members.contains(token) {
                    assert(crews(all)[j].contains(token));
                    assert(crews(all)[i as int].contains(token));
                }
            }
            owners.insert(token, i);
            k = k + 1;
        }
        proof {
            assert forall|j: int, t: usize|
                0 <= j < i + 1 && #[trigger] patterns@[j]@.members.contains(
                    t,
                ) implies owners@.contains_key(t) && owners@[t] == j by {
                if j == i {
                    let m = choose|m: int| 0 <= m < members@.len() && members@[m] == t;
                    assert(owners@.contains_key(members@[m]));
                }
            }
        }
        i = i + 1;
    }
    owners
}

/// The patterns that a batch has members in, in increasing order.
fn homes(patterns: &Vec<Group>, owners: &BTreeMap<usize, usize>, members: &Vec<usize>) -> (list: Vec<
    usize,
>)
    requires
        forall|t: usize| #[trigger]
            owners@.contains_key(t) ==> owners@[t] < patterns.len()
                && patterns@[owners@[t] as int]@.members.contains(t),
        forall|i: int, t: usize|
            0 <= i < patterns.len() && #[trigger] patterns@[i]@.members.contains(t)
                ==> owners@.contains_key(t) && owners@[t] == i,
    ensures
        list@ == ascending(holders(teams(patterns@), members@.to_set())),
{
    let ghost all = teams(patterns@);
    let ghost crew = members@.to_set();
    let n: usize = patterns.len();
    let mut hit: Vec<bool> = Vec::new();
    let mut i: usize = 0;
    while i < n
        invariant
            i <= n,
            hit.len() == i,
            forall|x: int| 0 <= x < i ==> !#[trigger] hit@[x],
        decreases n - i,
    {
        hit.push(false);
        i = i + 1;
    }
    let mut k: usize = 0;
    while k < members.len()
        invariant
            n == patterns.len(),
            hit.len() == n,
            forall|t: usize| #[trigger]
                owners@.contains_key(t) ==> owners@[t] < n
                    && patterns@[owners@[t] as int]@.members.contains(t),
            k <= members.len(),
            forall|x: int|
                0 <= x < n && #[trigger] hit@[x] ==> exists|m: int|
                    0 <= m < k && patterns@[x]@.members.contains(#[trigger] members@[m]),
            forall|m: int|
                0 <= m < k && owners@.contains_key(#[trigger] members@[m])
                    ==> hit@[owners@[members@[m]] as int],
        decreases members.len() - k,
    {
        let token: usize = members[k];
        if let Some(owner) = owners.get(&token) {
            let at: usize = *owner;
            let ghost before = hit@;
            hit.set(at, true);
            proof {
                assert forall|x: int| 0 <= x < n && #[trigger] hit@[x] implies exists|m: int|
                    0 <= m < k + 1 && patterns@[x]@.members.contains(#[trigger] members@[m]) by {
                    if x == at {
                        assert(patterns@[x]@.members.contains(members@[k as int]));
                    } else {
                        assert(before[x]);
                        let m = choose|m: int|
                            0 <= m < k && patterns@[x]@.members.contains(#[trigger] members@[m]);
                        assert(patterns@[x]@.members.contains(members@[m]));
                    }
                }
            }
        } else {
            proof {
                assert forall|x: int| 0 <= x < n && #[trigger] hit@[x] implies exists|m: int|
                    0 <= m < k + 1 && patterns@[x]@.members.contains(#[trigger] members@[m]) by {
                    let m = choose|m: int|
                        0 <= m < k && patterns@[x]@.members.contains(#[trigger] members@[m]);
                    assert(patterns@[x]@.members.contains(members@[m]));
                }
            }
        }
        k = k + 1;
    }
    let mut list: Vec<usize> = Vec::new();
    let mut at: usize = 0;
    while at < n
        invariant
            n == hit.len(),
            at <= n,
            increasing(list@),
            forall|m: int| 0 <= m < list.len() ==> (#[trigger] list@[m]) < at && hit@[list@[m] as int],
            forall|x: usize| x < at && hit@[x as int] ==> #[trigger] list@.contains(x),
        decreases n - at,
    {
        let ghost before = list@;
        if hit[at] {
            list.push(at);
            assert(list@[before.len() as int] == at);
        }
        proof {
            assert forall|x: usize| x < at + 1 && hit@[x as int] implies #[trigger] list@.contains(
                x,
            ) by {
                if x < at {
                    assert(before.contains(x));
                    let m = choose|m: int| 0 <= m < before.len() && before[m] == x;
                    assert(list@[m] == x);
                }
            }
        }
        at = at + 1;
    }
    proof {
        assert forall|x: usize| list@.to_set().contains(x) <==> holders(all, crew).contains(x) by {
            if list@.contains(x) {
                let m = choose|m: int| 0 <= m < list@.len() && list@[m] == x;
                assert(hit@[list@[m] as int]);
                let j = choose|j: int|
                    0 <= j < members@.len() && patterns@[x as int]@.members.contains(
                        #[trigger] members@[j],
                    );
                assert(crew.contains(members@[j]));
                assert(all[x as int].members.intersect(crew).contains(members@[j]));
            }
            if holders(all, crew).contains(x) {
                let t = choose|t: usize| #[trigger]
                    all[x as int].members.intersect(crew).contains(t);
                assert(patterns@[x as int]@.members.contains(t));
                let j = choose|j: int| 0 <= j < members@.len() && members@[j] == t;
                assert(owners@.contains_key(members@[j]));
                assert(hit@[x as int]);
                assert(list@.contains(x));
            }
        }
        assert(list@.to_set() =~= holders(all, crew));
        lemma_ascending_unique(list@, holders(all, crew));
    }
    list
}

/// The batch made of the listed patterns.
pub fn join_listed(patterns: &Vec<Group>, list: &Vec<usize>, costs: &Costs) -> (group: Group)
    requires
        priced(*costs, patterns@),
        list.len() > 0,
        forall|k: int| 0 <= k < list.len() ==> (#[trigger] list@[k]) < patterns.len(),
    ensures
        group@ == bundle(teams(patterns@), list@.to_set()),
        group.members@ == strung(rosters(patterns@), list@),
        costs.covers(group.checks),
{
    let ghost all = teams(patterns@);
    let ghost items = indexed(shapes(all));
    let ghost x = list@[0];
    let mut group: Group = patterns[list[0]].clone();
    proof {
        assert(list@.take(1).to_set() =~= set![x]) by {
            assert(list@.take(1)[0] == x);
            assert(list@.take(1) =~= seq![x]);
        }
        lemma_gather_one(items, x);
        lemma_crew_empty(all);
        lemma_crew_insert(all, Set::empty(), x);
        assert(Set::<usize>::empty().insert(x) =~= set![x]);
        assert(crew_of(all, set![x]) =~= all[x as int].members);
        assert(all[x as int] == patterns@[x as int]@);
        assert(items[x] == all[x as int].shape);
        assert(list@.take(1).drop_last() =~= Seq::<usize>::empty());
        assert(strung(rosters(patterns@), Seq::empty()) =~= Seq::<usize>::empty());
        assert(strung(rosters(patterns@), list@.take(1)) =~= patterns@[x as int].members@);
    }
    let mut k: usize = 1;
    while k < list.len()
        invariant
            all == teams(patterns@),
            items == indexed(shapes(all)),
            priced(*costs, patterns@),
            forall|k: int| 0 <= k < list.len() ==> (#[trigger] list@[k]) < patterns.len(),
            1 <= k <= list.len(),
            group@ == bundle(all, list@.take(k as int).to_set()),
            group.members@ == strung(rosters(patterns@), list@.take(k as int)),
            costs.covers(group.checks),
        decreases list.len() - k,
    {
        let next: &Group = &patterns[list[k]];
        let both: Group = group.merge(next);
        proof {
            let y = list@[k as int];
            let block = list@.take(k as int).to_set();
            assert(list@.take(k + 1) =~= list@.take(k as int).push(y));
            list@.take(k as int).lemma_push_to_set_commute(y);
            lemma_gather_insert(items, block, y);
            lemma_crew_insert(all, block, y);
            assert(all[y as int] == next@);
            assert(items[y] == next@.shape);
            assert(list@.take(k + 1).drop_last() =~= list@.take(k as int));
            assert(rosters(patterns@)[y as int] == next.members@);
            lemma_covers_union(*costs, group.checks, next.checks, both.checks);
        }
        group = both;
        k = k + 1;
    }
    assert(list@.take(k as int) =~= list@);
    group
}

/// The position of each pattern, the hardest to place in front.
fn by_difficulty(patterns: &Vec<Group>, costs: &Costs) -> (order: Vec<usize>)
    requires
        priced(*costs, patterns@),
        forall|i: int|
            0 <= i < patterns.len() ==> costs@.latest((#[trigger] patterns@[i])@.shape) >= 0,
    ensures
        order@ == difficulty(costs@, shapes(teams(patterns@))),
        order.len() == patterns.len(),
{
    let ghost s = shapes(teams(patterns@));
    let ghost lt = |a: usize, b: usize| harder(costs@, s, a, b);
    let n: usize = patterns.len();
    let mut keys: Vec<(u64, u128)> = Vec::new();
    let mut i: usize = 0;
    while i < n
        invariant
            n == patterns.len(),
            priced(*costs, patterns@),
            forall|i: int|
                0 <= i < patterns.len() ==> costs@.latest((#[trigger] patterns@[i])@.shape) >= 0,
            i <= n,
            keys.len() == i,
            forall|k: int|
                0 <= k < i ==> (#[trigger] keys@[k]).0 == costs@.latest(patterns@[k]@.shape)
                    && keys@[k].1 == costs@.duration(patterns@[k].checks@),
        decreases n - i,
    {
        let start: u64 = patterns[i].latest(costs);
        let duration: u128 = costs.duration(&patterns[i].checks);
        keys.push((start, duration));
        i = i + 1;
    }
    let before = |a: usize, b: usize| -> (less: bool)
        requires
            a < n,
            b < n,
            n == patterns.len(),
            n == keys.len(),
            forall|k: int| 0 <= k < n ==> (#[trigger] patterns@[k]).checks.wf(),
            forall|k: int|
                0 <= k < n ==> (#[trigger] keys@[k]).0 == costs@.latest(patterns@[k]@.shape)
                    && keys@[k].1 == costs@.duration(patterns@[k].checks@),
        ensures
            less == harder(costs@, shapes(teams(patterns@)), a, b),
        {
            let ghost s = shapes(teams(patterns@));
            assert(s[a as int] == patterns@[a as int]@.shape);
            assert(s[b as int] == patterns@[b as int]@.shape);
            if keys[a].0 != keys[b].0 {
                keys[a].0 < keys[b].0
            } else if keys[a].1 != keys[b].1 {
                keys[a].1 > keys[b].1
            } else if patterns[a].checks.precedes(&patterns[b].checks) {
                true
            } else {
                a < b && patterns[a].checks.same(&patterns[b].checks)
            }
        };
    proof {
        lemma_harder_orders(costs@, s, upto(n as nat));
    }
    arrange(n, before, Ghost(lt))
}

/// A search that starts from the initial plan.
fn prepare<'a>(
    patterns: &'a Vec<Group>,
    costs: &'a Costs,
    now: u64,
    initial: &Vec<Group>,
    best_score: (usize, u128),
    bound: (usize, u128),
    Ghost(parts): Ghost<Seq<Set<usize>>>,
) -> (search: Search<'a>)
    requires
        0 < patterns.len() <= PATTERN_LIMIT,
        priced(*costs, patterns@),
        forall|i: int|
            0 <= i < patterns.len() ==> costs@.fits((#[trigger] patterns@[i])@.shape, now),
        splits(crews(teams(patterns@)), held(teams(patterns@))),
        teams(initial@) == bundles(teams(patterns@), parts),
        splits(parts, upto(patterns@.len())),
        feasible(costs@, indexed(shapes(teams(patterns@))), parts, now),
        (bound.0 as nat, bound.1 as nat) == bound_of(costs@, now, shapes(teams(patterns@))),
        (best_score.0 as nat, best_score.1 as nat) == score_of(
            costs@,
            shapes(teams(initial@)),
        ),
    ensures
        search.inv(),
        search.costs == costs,
        search.patterns == patterns,
        search.ground() == field(costs@, now, shapes(teams(patterns@))),
        search.hunt() == opening(costs@, teams(patterns@), teams(initial@)),
{
    let ghost all = teams(patterns@);
    let ghost start = teams(initial@);
    let ghost s = shapes(all);
    let owners: BTreeMap<usize, usize> = owners_of(patterns);
    let mut best: Vec<Vec<usize>> = Vec::new();
    let mut i: usize = 0;
    while i < initial.len()
        invariant
            all == teams(patterns@),
            forall|t: usize| #[trigger]
                owners@.contains_key(t) ==> owners@[t] < patterns.len()
                    && patterns@[owners@[t] as int]@.members.contains(t),
            forall|i: int, t: usize|
                0 <= i < patterns.len() && #[trigger] patterns@[i]@.members.contains(t)
                    ==> owners@.contains_key(t) && owners@[t] == i,
            i <= initial.len(),
            best.len() == i,
            forall|k: int|
                0 <= k < i ==> (#[trigger] best@[k])@ == ascending(
                    holders(all, initial@[k]@.members),
                ),
        decreases initial.len() - i,
    {
        best.push(homes(patterns, &owners, &initial[i].members));
        i = i + 1;
    }
    let order: Vec<usize> = by_difficulty(patterns, costs);
    let union: Checks = everything(patterns, costs);
    let total_work: u128 = costs.work(&union);
    let mut seen: Vec<Level> = Vec::new();
    let mut k: usize = 0;
    while k < order.len()
        invariant
            k <= order.len(),
            seen.len() == k,
            forall|p: int| 0 <= p < k ==> (#[trigger] seen@[p])@ == Set::<Multiset<Shape>>::empty(),
        decreases order.len() - k,
    {
        seen.push(Level::new());
        k = k + 1;
    }
    let search: Search = Search {
        patterns,
        costs,
        now,
        order,
        best,
        best_score,
        bound,
        total_work,
        nodes: 0,
        exhausted: false,
        seen,
    };
    proof {
        let h = opening(costs@, all, start);
        assert(search.ground() == field(costs@, now, s));
        assert(search.hunt().best =~= h.best);
        assert(search.hunt().seen =~= h.seen);
        assert forall|i: int| 0 <= i < s.len() implies costs@.fits(#[trigger] s[i], now) by {
            assert(s[i] == patterns@[i]@.shape);
        }
        lemma_field(costs@, now, s);
        lemma_opening(costs@, now, all, held(all), parts);
    }
    search
}

/// The batches that the lists of patterns make.
fn conclude(patterns: &Vec<Group>, best: &Vec<Vec<usize>>, costs: &Costs) -> (groups: Vec<Group>)
    requires
        priced(*costs, patterns@),
        splits(index_sets(index_lists(best@)), upto(patterns@.len())),
    ensures
        teams(groups@) == bundles(teams(patterns@), index_sets(index_lists(best@))),
        rosters(groups@) == strung_all(rosters(patterns@), index_lists(best@)),
        priced(*costs, groups@),
{
    let ghost all = teams(patterns@);
    let ghost lists = index_lists(best@);
    let ghost after = index_sets(lists);
    let mut groups: Vec<Group> = Vec::new();
    let mut j: usize = 0;
    while j < best.len()
        invariant
            all == teams(patterns@),
            priced(*costs, patterns@),
            lists == index_lists(best@),
            after == index_sets(lists),
            splits(after, upto(patterns@.len())),
            j <= best.len(),
            groups.len() == j,
            forall|k: int| 0 <= k < j ==> (#[trigger] groups@[k])@ == bundle(all, after[k]),
            forall|k: int|
                0 <= k < j ==> (#[trigger] groups@[k]).members@ == strung(
                    rosters(patterns@),
                    lists[k],
                ),
            priced(*costs, groups@),
        decreases best.len() - j,
    {
        let list: &Vec<usize> = &best[j];
        proof {
            assert(lists[j as int] == list@);
            assert(after[j as int] == list@.to_set());
            assert(inhabited(after[j as int]));
            let x = choose|x: usize| #[trigger] after[j as int].contains(x);
            assert(list@.contains(x));
            assert forall|k: int| 0 <= k < list.len() implies (#[trigger] list@[k])
                < patterns.len() by {
                assert(after[j as int].contains(list@[k]));
                assert(upto(patterns@.len()).contains(list@[k]));
            }
        }
        groups.push(join_listed(patterns, list, costs));
        j = j + 1;
    }
    assert(teams(groups@) =~= bundles(all, after));
    assert(rosters(groups@) =~= strung_all(rosters(patterns@), lists));
    groups
}

/// The initial plan after bounded improvement. Counts the effort.
pub fn improve(
    patterns: &Vec<Group>,
    costs: &Costs,
    now: u64,
    initial: Vec<Group>,
    stats: &mut Stats,
) -> (groups: Vec<Group>)
    requires
        patterns.len() > 0,
        priced(*costs, patterns@),
        priced(*costs, initial@),
        on_time(costs@, teams(patterns@), now),
        made_of(costs@, now, teams(patterns@), teams(initial@)),
    ensures
        teams(groups@) == improved(costs@, now, teams(patterns@), teams(initial@)),
        rosters(groups@) == improved_lists(
            costs@,
            now,
            teams(patterns@),
            rosters(patterns@),
            teams(initial@),
            rosters(initial@),
        ),
        priced(*costs, groups@),
        *final(stats) == (Stats {
            search_nodes: old(stats).search_nodes.wrapping_add(
                nodes(costs@, now, teams(patterns@), teams(initial@)) as usize,
            ),
            search_budget_exhaustions: old(stats).search_budget_exhaustions.wrapping_add(
                if stopped(costs@, now, teams(patterns@), teams(initial@)) {
                    1usize
                } else {
                    0usize
                },
            ),
            ..*old(stats)
        }),
{
    let ghost all = teams(patterns@);
    let ghost start = teams(initial@);
    let ghost s = shapes(all);
    let ghost parts = choose|parts: Seq<Set<usize>>|
        start == #[trigger] bundles(all, parts) && splits(parts, upto(all.len())) && feasible(
            costs@,
            indexed(s),
            parts,
            now,
        );
    proof {
        assert forall|i: int| 0 <= i < patterns.len() implies costs@.fits(
            (#[trigger] patterns@[i])@.shape,
            now,
        ) by {
            assert(costs@.fits(all[i].shape, now));
        }
        assert(on_time(costs@, start, now)) by {
            assert forall|i: int| 0 <= i < start.len() implies costs@.fits(
                (#[trigger] start[i]).shape,
                now,
            ) by {
                assert(start[i] == bundle(all, parts[i]));
            }
        }
        assert(start.len() == initial.len());
        lemma_seconds_fit(costs@, start, now);
    }
    let bound: (usize, u128) = lower_bound(patterns, costs, now);
    let best_score: (usize, u128) = score(&initial, costs);
    if best_score.0 == bound.0 && best_score.1 == bound.1 {
        return initial;
    }
    if patterns.len() > PATTERN_LIMIT {
        stats.search_budget_exhaustions = stats.search_budget_exhaustions.wrapping_add(1);
        return initial;
    }
    let mut search: Search = prepare(
        patterns,
        costs,
        now,
        &initial,
        best_score,
        bound,
        Ghost(parts),
    );
    let ghost g = search.ground();
    let ghost h = search.hunt();
    let none: Checks = Checks::default();
    let mut bins: Vec<Bin> = Vec::new();
    proof {
        lemma_tidy_start(g);
        crate::group::lemma_covers(*costs, none);
        assert(slots(bins@) =~= Seq::<Slot>::empty());
        lemma_visit_proper(g, h, 0, Seq::empty(), 0, Set::empty());
    }
    search.visit(0, &mut bins, 0, &none);
    stats.search_nodes = stats.search_nodes.wrapping_add(search.nodes);
    stats.search_budget_exhaustions = stats.search_budget_exhaustions.wrapping_add(
        if search.exhausted {
            1
        } else {
            0
        },
    );
    proof {
        assert(search.hunt() == hunted(costs@, now, all, start));
        reveal(Ground::proper);
        assert(attains(g, index_sets(search.hunt().best), search.hunt().best_score));
    }
    conclude(patterns, &search.best, costs)
}

} // verus!
