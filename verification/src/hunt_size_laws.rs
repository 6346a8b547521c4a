//! How many nodes a search visits, where it turns back, and in what order it goes.
use vstd::prelude::*;

use crate::bits::bits_lt;
use crate::bound::{lower_bound, total};
use crate::hunt::{difficulty, harder, lemma_harder_orders, load, Ground, Hunt, Slot};
use crate::hunt_laws::{lemma_cheaper_orders, lemma_options};
use crate::listing::{lemma_listing, lemma_upto, upto};
use crate::partition::seconds;
use crate::placing::{added, has_room, slack};
use crate::plan::{field, hunted, opening};
use crate::shape::{Rates, Shape};
use crate::team::{extra, shapes, Team};

verus! {

/// The nodes of the whole tree below one with `m` machines and `r` patterns to assign: each
/// pattern goes to one of the machines, or to one of its own.
pub open spec fn tree(m: nat, r: nat) -> nat
    decreases r,
{
    if r == 0 {
        1
    } else {
        1 + m * tree(m, (r - 1) as nat) + tree(m + 1, (r - 1) as nat)
    }
}

proof fn lemma_visit_size(
    g: Ground,
    h: Hunt,
    pos: nat,
    slots: Seq<Slot>,
    secs: nat,
    covered: Set<usize>,
)
    requires
        pos <= g.order.len(),
        slots.len() + (g.order.len() - pos) <= usize::MAX,
    ensures
        h.nodes <= g.visit(h, pos, slots, secs, covered).nodes <= h.nodes + tree(
            slots.len(),
            (g.order.len() - pos) as nat,
        ),
    decreases g.order.len() - pos, 1int, 0int,
{
    if pos < g.order.len() {
        lemma_tries_size(
            g,
            Hunt { seen: h.seen.insert((pos, load(slots))), nodes: h.nodes + 1, ..h },
            pos,
            slots,
            secs,
            covered,
            0,
        );
        lemma_option_count(g, slots, pos);
        let m = slots.len();
        let below = tree(m, (g.order.len() - pos - 1) as nat);
        let n = g.options(slots, pos).len();
        assert(n * below <= m * below) by (nonlinear_arith)
            requires
                n <= m,
                below >= 0,
        ;
    }
}

/// There are no more options than machines.
proof fn lemma_option_count(g: Ground, slots: Seq<Slot>, pos: nat)
    requires
        slots.len() <= usize::MAX,
    ensures
        g.options(slots, pos).len() <= slots.len(),
        forall|k: int|
            0 <= k < g.options(slots, pos).len() ==> (#[trigger] g.options(slots, pos)[k])
                < slots.len(),
{
    lemma_options(g, slots, pos);
    let all = upto(slots.len());
    lemma_upto(slots.len());
    assert(g.openings(slots, pos).subset_of(all));
    vstd::set_lib::lemma_len_subset(g.openings(slots, pos), all);
}

proof fn lemma_tries_size(
    g: Ground,
    h: Hunt,
    pos: nat,
    slots: Seq<Slot>,
    secs: nat,
    covered: Set<usize>,
    k: nat,
)
    requires
        pos < g.order.len(),
        k <= g.options(slots, pos).len(),
        slots.len() + (g.order.len() - pos) <= usize::MAX,
    ensures
        h.nodes <= g.tries(h, pos, slots, secs, covered, k).nodes <= h.nodes + (g.options(
            slots,
            pos,
        ).len() - k) * tree(slots.len(), (g.order.len() - pos - 1) as nat) + tree(
            slots.len() + 1,
            (g.order.len() - pos - 1) as nat,
        ),
    decreases g.order.len() - pos, 0int, g.options(slots, pos).len() - k,
{
    let wider = covered.union(g.job(pos).checks);
    let n = g.options(slots, pos).len();
    let below = tree(slots.len(), (g.order.len() - pos - 1) as nat);
    lemma_option_count(g, slots, pos);
    if k < n {
        let i = g.options(slots, pos)[k as int];
        let more = (secs + extra(g.rates, slots[i as int].shape, g.job(pos))) as nat;
        let after = g.visit(h, pos + 1, g.filled(slots, pos, i), more, wider);
        lemma_visit_size(g, h, pos + 1, g.filled(slots, pos, i), more, wider);
        assert((n - k) * below == below + (n - k - 1) * below) by (nonlinear_arith);
        assert((n - k - 1) * below >= 0) by (nonlinear_arith)
            requires
                n - k - 1 >= 0,
                below >= 0,
        ;
        lemma_tries_size(g, after, pos, slots, secs, covered, k + 1);
    } else {
        let more = secs + g.rates.duration(g.job(pos).checks);
        assert((n - k) * below == 0) by (nonlinear_arith)
            requires
                n == k,
        ;
        lemma_visit_size(g, h, pos + 1, g.opened(slots, pos), more, wider);
    }
}

/// A search counts each node that it visits once: at least one, and no more than the tree
/// has. It turns back at once where the machines are too many, or cannot get by with fewer
/// seconds than the best so far even if every check that is left is run just once, and
/// where it has been before. It does not go on once the bound is reached.
pub proof fn lemma_node_count(
    g: Ground,
    h: Hunt,
    pos: nat,
    slots: Seq<Slot>,
    secs: nat,
    covered: Set<usize>,
)
    requires
        pos <= g.order.len(),
        slots.len() + (g.order.len() - pos) <= usize::MAX,
        h.nodes < 30_000,
    ensures
        ({
            let after = g.visit(h, pos, slots, secs, covered);
            let m = slots.len();
            let missing = if g.bound.0 > m {
                g.bound.0 - m
            } else {
                0
            };
            let left = g.total_work - g.rates.work(covered);
            &&& h.best_score == g.bound ==> after == h
            &&& h.best_score != g.bound ==> h.nodes + 1 <= after.nodes
            &&& after.nodes <= h.nodes + tree(m, (g.order.len() - pos) as nat)
            &&& h.best_score != g.bound && {
                ||| m > h.best_score.0
                ||| m == h.best_score.0 && secs + left >= h.best_score.1
                ||| m + missing == h.best_score.0 && secs + left + missing * g.rates.boot
                    >= h.best_score.1
                ||| pos < g.order.len() && h.seen.contains((pos, load(slots)))
                ||| pos < g.order.len() && g.options(slots, pos).len() == 0 && m >= h.best_score.0
            } && g.bound.0 <= h.best_score.0 ==> after.nodes == h.nodes + 1 && after.best == h.best
                && after.best_score == h.best_score
        }),
{
    lemma_visit_size(g, h, pos, slots, secs, covered);
    if pos < g.order.len() {
        lemma_option_count(g, slots, pos);
        lemma_tries_size(
            g,
            Hunt { seen: h.seen.insert((pos, load(slots))), nodes: h.nodes + 1, ..h },
            pos,
            slots,
            secs,
            covered,
            0,
        );
        let below = tree(slots.len(), (g.order.len() - pos - 1) as nat);
        let n = g.options(slots, pos).len();
        assert((n - 0) * below >= 0) by (nonlinear_arith)
            requires
                n >= 0,
                below >= 0,
        ;
    }
    assert(0 * g.rates.boot == 0);
}

/// A search assigns the patterns that have to start soonest first, then those that take
/// longest, then those whose checks are the smaller numeral.
pub proof fn lemma_hardest_first(rates: Rates, s: Seq<Shape>)
    requires
        s.len() <= usize::MAX,
    ensures
        difficulty(rates, s).len() == s.len(),
        difficulty(rates, s).no_duplicates(),
        forall|k: int| 0 <= k < s.len() ==> (#[trigger] difficulty(rates, s)[k]) < s.len(),
        forall|k: int, l: int|
            0 <= k < l < s.len() ==> {
                let a = #[trigger] difficulty(rates, s)[k];
                let b = #[trigger] difficulty(rates, s)[l];
                let x = s[a as int];
                let y = s[b as int];
                let wx = rates.work(x.checks);
                let wy = rates.work(y.checks);
                ||| slack(rates, x) < slack(rates, y)
                ||| slack(rates, x) == slack(rates, y) && wx > wy
                ||| slack(rates, x) == slack(rates, y) && wx == wy && bits_lt(x.checks, y.checks)
                ||| slack(rates, x) == slack(rates, y) && x.checks == y.checks && a < b
            },
{
    let order = difficulty(rates, s);
    let lt = |a: usize, b: usize| harder(rates, s, a, b);
    lemma_upto(s.len());
    lemma_harder_orders(rates, s, upto(s.len()));
    lemma_listing(upto(s.len()), lt);
    assert forall|k: int| 0 <= k < s.len() implies (#[trigger] order[k]) < s.len() by {
        assert(order.to_set().contains(order[k]));
    }
    assert forall|k: int, l: int| 0 <= k < l < s.len() implies lt(
        #[trigger] order[k],
        #[trigger] order[l],
    ) by {}
}

/// A search tries machines with time for the pattern, those first that it costs least, and
/// of machines with the same demand just the first.
pub proof fn lemma_cheapest_first(g: Ground, slots: Seq<Slot>, pos: nat)
    requires
        slots.len() <= usize::MAX,
    ensures
        ({
            let tried = g.options(slots, pos);
            let job = g.job(pos);
            &&& forall|k: int|
                0 <= k < tried.len() ==> (#[trigger] tried[k]) < slots.len() && has_room(
                    g.rates,
                    g.now,
                    slots[tried[k] as int].shape,
                    job,
                )
            &&& forall|k: int, l: int|
                0 <= k < l < tried.len() ==> {
                    let x = added(g.rates, slots[(#[trigger] tried[k]) as int].shape, job);
                    let y = added(g.rates, slots[(#[trigger] tried[l]) as int].shape, job);
                    x < y || x == y && tried[k] < tried[l]
                }
            &&& forall|i: int|
                0 <= i < slots.len() && has_room(
                    g.rates,
                    g.now,
                    (#[trigger] slots[i]).shape,
                    job,
                ) && (forall|j: int|
                    0 <= j < i ==> (#[trigger] slots[j]).shape != slots[i].shape) <==> 0 <= i
                    < slots.len() && tried.contains(i as usize)
        }),
{
    let tried = g.options(slots, pos);
    let open = g.openings(slots, pos);
    let lt = |a: usize, b: usize| g.cheaper(slots, pos, a, b);
    lemma_option_count(g, slots, pos);
    lemma_upto(slots.len());
    assert(open.subset_of(upto(slots.len())));
    vstd::set_lib::lemma_set_subset_finite(upto(slots.len()), open);
    lemma_cheaper_orders(g, slots, pos);
    lemma_listing(open, lt);
    assert forall|k: int| 0 <= k < tried.len() implies open.contains(#[trigger] tried[k]) by {
        assert(tried.to_set().contains(tried[k]));
    }
    assert forall|k: int, l: int| 0 <= k < l < tried.len() implies lt(
        #[trigger] tried[k],
        #[trigger] tried[l],
    ) by {}
    assert forall|i: int| 0 <= i < slots.len() implies (tried.contains(i as usize)
        <==> #[trigger] open.contains(i as usize)) by {
        assert(tried.to_set().contains(i as usize) <==> tried.contains(i as usize));
    }
    assert forall|i: int|
        0 <= i < slots.len() && has_room(g.rates, g.now, (#[trigger] slots[i]).shape, g.job(pos))
            && (forall|j: int|
            0 <= j < i ==> (#[trigger] slots[j]).shape != slots[i].shape) <==> 0 <= i < slots.len()
            && tried.contains(i as usize) by {
        if 0 <= i < slots.len() {
            assert(tried.contains(i as usize) <==> open.contains(i as usize));
        }
    }
}

/// A search that has assigned every pattern keeps what it has if it uses fewer machines
/// than the best so far, or as many for fewer seconds, and forgets it otherwise.
pub proof fn lemma_leaf(g: Ground, h: Hunt, slots: Seq<Slot>, secs: nat, covered: Set<usize>)
    requires
        h.nodes < 30_000,
        h.best_score != g.bound,
        g.bound.0 <= slots.len(),
        g.total_work == g.rates.work(covered),
    ensures
        ({
            let after = g.visit(h, g.order.len(), slots, secs, covered);
            let better = slots.len() < h.best_score.0 || slots.len() == h.best_score.0 && secs
                < h.best_score.1;
            &&& after.nodes == h.nodes + 1
            &&& after.exhausted == h.exhausted
            &&& better ==> after.best_score == (slots.len(), secs) && after.best.len()
                == slots.len() && forall|i: int|
                0 <= i < slots.len() ==> #[trigger] after.best[i] == slots[i].patterns
            &&& !better ==> after.best_score == h.best_score && after.best == h.best
        }),
{
    assert(0 * g.rates.boot == 0);
}

/// The pattern joins the machine: it runs the checks of both, by the earlier deadline.
pub open spec fn joined_by(slot: Slot, shape: Shape, pattern: usize) -> Slot {
    Slot {
        shape: Shape {
            checks: slot.shape.checks.union(shape.checks),
            deadline: if slot.shape.deadline < shape.deadline {
                slot.shape.deadline
            } else {
                shape.deadline
            },
        },
        patterns: slot.patterns.push(pattern),
    }
}

/// One after the other, the search goes down with the pattern on each of these machines.
pub open spec fn goes_down(
    g: Ground,
    pos: nat,
    slots: Seq<Slot>,
    secs: nat,
    covered: Set<usize>,
    from: nat,
    stages: Seq<Hunt>,
) -> bool {
    let job = g.job(pos);
    let tried = g.options(slots, pos);
    &&& 0 < stages.len() <= tried.len() - from + 1
    &&& forall|k: int|
        0 <= k < stages.len() - 1 ==> {
            let i = tried[from + k] as int;
            #[trigger] stages[k + 1] == g.visit(
                stages[k],
                pos + 1,
                slots.update(i, joined_by(slots[i], job, g.order[pos as int])),
                (secs + added(g.rates, slots[i].shape, job)) as nat,
                covered.union(job.checks),
            ) && (k + 1 < stages.len() - 1 ==> !stages[k + 1].exhausted && stages[k + 1].best_score
                != g.bound)
        }
}

/// Where a search that goes down machine by machine ends: at the first machine below which
/// it is cut short or meets the bound, or, after all of them, with one more machine, if
/// that is still fewer than the best so far.
pub open spec fn comes_back(
    g: Ground,
    pos: nat,
    slots: Seq<Slot>,
    secs: nat,
    covered: Set<usize>,
    from: nat,
    stages: Seq<Hunt>,
    end: Hunt,
) -> bool {
    let job = g.job(pos);
    let last = stages.last();
    let halted = stages.len() > 1 && (last.exhausted || last.best_score == g.bound);
    &&& halted ==> end == last
    &&& !halted ==> stages.len() == g.options(slots, pos).len() - from + 1
    &&& !halted && slots.len() < last.best_score.0 ==> end == g.visit(
        last,
        pos + 1,
        slots.push(Slot { shape: job, patterns: seq![g.order[pos as int]] }),
        secs + g.rates.boot as nat + g.rates.work(job.checks),
        covered.union(job.checks),
    )
    &&& !halted && slots.len() >= last.best_score.0 ==> end == last
}

proof fn lemma_tries_down(
    g: Ground,
    h: Hunt,
    pos: nat,
    slots: Seq<Slot>,
    secs: nat,
    covered: Set<usize>,
    from: nat,
) -> (stages: Seq<Hunt>)
    requires
        pos < g.order.len(),
        from <= g.options(slots, pos).len(),
    ensures
        stages.len() > 0 && stages[0] == h,
        goes_down(g, pos, slots, secs, covered, from, stages),
        comes_back(
            g,
            pos,
            slots,
            secs,
            covered,
            from,
            stages,
            g.tries(h, pos, slots, secs, covered, from),
        ),
    decreases g.options(slots, pos).len() - from,
{
    let tried = g.options(slots, pos);
    let job = g.job(pos);
    let wider = covered.union(job.checks);
    if from < tried.len() {
        let i = tried[from as int];
        let after = g.visit(
            h,
            pos + 1,
            g.filled(slots, pos, i),
            (secs + extra(g.rates, slots[i as int].shape, job)) as nat,
            wider,
        );
        assert(g.filled(slots, pos, i) == slots.update(
            i as int,
            joined_by(slots[i as int], job, g.order[pos as int]),
        ));
        assert(extra(g.rates, slots[i as int].shape, job) == added(
            g.rates,
            slots[i as int].shape,
            job,
        ));
        if after.exhausted || after.best_score == g.bound {
            seq![h, after]
        } else {
            let rest = lemma_tries_down(g, after, pos, slots, secs, covered, from + 1);
            let stages = seq![h] + rest;
            assert(stages[1] == after);
            assert(stages.last() == rest.last());
            assert forall|k: int| 0 <= k < stages.len() - 1 implies {
                let i = tried[from + k] as int;
                #[trigger] stages[k + 1] == g.visit(
                    stages[k],
                    pos + 1,
                    slots.update(i, joined_by(slots[i], job, g.order[pos as int])),
                    (secs + added(g.rates, slots[i].shape, job)) as nat,
                    covered.union(job.checks),
                ) && (k + 1 < stages.len() - 1 ==> !stages[k + 1].exhausted
                    && stages[k + 1].best_score != g.bound)
            } by {
                if k > 0 {
                    assert(rest[(k - 1) + 1] == stages[k + 1]);
                    assert(rest[k - 1] == stages[k]);
                }
            }
            stages
        }
    } else {
        seq![h]
    }
}

/// A search goes depth first. From a node where it does not turn back it goes down with the
/// next pattern on each machine that can take it, in order, and remembers that it has been
/// there.
pub proof fn lemma_depth_first(
    g: Ground,
    h: Hunt,
    pos: nat,
    slots: Seq<Slot>,
    secs: nat,
    covered: Set<usize>,
) -> (stages: Seq<Hunt>)
    requires
        pos < g.order.len(),
        h.nodes < 30_000,
        h.best_score != g.bound,
        slots.len() < h.best_score.0,
        g.bound.0 < h.best_score.0,
        !h.seen.contains((pos, load(slots))),
    ensures
        stages.len() > 0,
        stages[0] == (Hunt {
            best: h.best,
            best_score: h.best_score,
            nodes: h.nodes + 1,
            exhausted: h.exhausted,
            seen: h.seen.insert((pos, load(slots))),
        }),
        goes_down(g, pos, slots, secs, covered, 0, stages),
        comes_back(
            g,
            pos,
            slots,
            secs,
            covered,
            0,
            stages,
            g.visit(h, pos, slots, secs, covered),
        ),
{
    let first = Hunt { seen: h.seen.insert((pos, load(slots))), nodes: h.nodes + 1, ..h };
    lemma_tries_down(g, first, pos, slots, secs, covered, 0)
}

/// What a search starts with: the patterns, hardest first, the bound, each distinct check to
/// be run once, and the plan that it is to improve as the best so far.
pub proof fn lemma_set_up(rates: Rates, now: u64, all: Seq<Team>, initial: Seq<Team>)
    ensures
        ({
            let g = field(rates, now, shapes(all));
            let h = opening(rates, all, initial);
            &&& g.rates == rates && g.now == now && g.shapes == shapes(all)
            &&& g.order == difficulty(rates, shapes(all))
            &&& g.bound == lower_bound(rates, now, shapes(all))
            &&& g.total_work == rates.work(total(shapes(all)).checks)
            &&& h.best_score == (initial.len(), seconds(rates, shapes(initial)))
            &&& h.nodes == 0 && !h.exhausted && h.seen.is_empty()
            &&& hunted(rates, now, all, initial) == g.visit(h, 0, Seq::empty(), 0, Set::empty())
        }),
{
    assert(opening(rates, all, initial).seen =~= Set::empty());
}

} // verus!
