//! What replanning gains, in batches and machine seconds, and how far it searches.
use vstd::prelude::*;

use crate::bits::{bits_lt, lemma_bits_orders};
use crate::bound::{lower_bound, total};
use crate::hunt::{
    harder, lemma_harder_orders, load, Ground, Hunt, Slot, NODE_BUDGET, PATTERN_LIMIT,
};
use crate::hunt_size_laws::lemma_node_count;
use crate::listing::{lemma_listing, lemma_upto, upto};
use crate::partition::{feasible, gathered, indexed, inhabited, score, seconds, splits};
use crate::plan::{
    carried, effort, field, greedy, improved, nodes, opening, plan, ready, stopped,
    together, unquestioned,
};
use crate::plan_best::{lemma_effort, lemma_plan, lemma_plan_best, lemma_single};
use crate::plan_laws::{lemma_all, lemma_bundles_arrange, lemma_carried, lemma_improved};
use crate::policy::Policy;
use crate::shape::{gather, Rates, Shape};
use crate::team::{bundles, crews, extra, kinds, patterns, shapes, Team};

verus! {

/// The seconds that machines take for these blocks of jobs, one machine each.
pub open spec fn machine_seconds(
    rates: Rates,
    items: Map<usize, Shape>,
    blocks: Seq<Set<usize>>,
) -> nat
    decreases blocks.len(),
{
    if blocks.len() == 0 {
        0
    } else {
        machine_seconds(rates, items, blocks.drop_last()) + rates.boot as nat + rates.work(
            gather(items, blocks.last()).checks,
        )
    }
}

pub proof fn lemma_machine_seconds(rates: Rates, items: Map<usize, Shape>, blocks: Seq<Set<usize>>)
    ensures
        seconds(rates, gathered(items, blocks)) == machine_seconds(rates, items, blocks),
    decreases blocks.len(),
{
    if blocks.len() > 0 {
        lemma_machine_seconds(rates, items, blocks.drop_last());
        assert(gathered(items, blocks).drop_last() =~= gathered(items, blocks.drop_last()));
    }
}

/// A plan's teams ask for what their members ask for.
pub proof fn lemma_team_seconds(rates: Rates, items: Map<usize, Shape>, teams: Seq<Team>)
    requires
        forall|i: int|
            0 <= i < teams.len() ==> (#[trigger] teams[i]).shape == gather(items, teams[i].members),
    ensures
        score(rates, shapes(teams)) == (
            teams.len(),
            machine_seconds(rates, items, crews(teams)),
        ),
{
    lemma_machine_seconds(rates, items, crews(teams));
    assert(gathered(items, crews(teams)) =~= shapes(teams)) by {
        assert forall|i: int| 0 <= i < teams.len() implies gathered(items, crews(teams))[i]
            == shapes(teams)[i] by {
            assert(teams[i].shape == gather(items, teams[i].members));
        }
    }
}

/// Plans are rearranged for a reason. Where the batch count decides, a plan that differs
/// from the carried one has fewer batches. Where cost decides, it has fewer batches, or as
/// many that take fewer seconds.
pub proof fn lemma_change_pays(
    rates: Rates,
    now: u64,
    policy: Policy,
    items: Map<usize, Shape>,
    previous: Seq<Team>,
)
    requires
        ready(rates, now, items, previous),
    ensures
        ({
            let old = carried(rates, now, items, previous);
            let new = plan(rates, now, policy, items, previous);
            let saved = machine_seconds(rates, items, crews(old)) - machine_seconds(
                rates,
                items,
                crews(new),
            );
            &&& policy == Policy::Count ==> new == old || new.len() < old.len()
            &&& policy == Policy::Cost ==> new == old || new.len() < old.len() || new.len()
                == old.len() && saved > 0
        }),
{
    lemma_plan(rates, now, policy, items, previous);
    lemma_carried(rates, now, items, previous);
    lemma_team_seconds(rates, items, carried(rates, now, items, previous));
    lemma_team_seconds(rates, items, plan(rates, now, policy, items, previous));
}

/// A search that stops at its budget has used it up.
proof fn lemma_visit_spent(
    g: Ground,
    h: Hunt,
    pos: nat,
    slots: Seq<Slot>,
    secs: nat,
    covered: Set<usize>,
)
    requires
        h.nodes <= 30_000,
        !h.exhausted,
    ensures
        g.visit(h, pos, slots, secs, covered).nodes <= 30_000,
        g.visit(h, pos, slots, secs, covered).exhausted ==> g.visit(
            h,
            pos,
            slots,
            secs,
            covered,
        ).nodes == 30_000 && g.visit(h, pos, slots, secs, covered).best_score != g.bound,
    decreases g.order.len() - pos, 1int, 0int,
{
    if pos < g.order.len() && h.nodes < 30_000 {
        lemma_tries_spent(
            g,
            Hunt { seen: h.seen.insert((pos, load(slots))), nodes: h.nodes + 1, ..h },
            pos,
            slots,
            secs,
            covered,
            0,
        );
    }
}

proof fn lemma_tries_spent(
    g: Ground,
    h: Hunt,
    pos: nat,
    slots: Seq<Slot>,
    secs: nat,
    covered: Set<usize>,
    k: nat,
)
    requires
        h.nodes <= 30_000,
        !h.exhausted,
        pos < g.order.len(),
    ensures
        g.tries(h, pos, slots, secs, covered, k).nodes <= 30_000,
        g.tries(h, pos, slots, secs, covered, k).exhausted ==> g.tries(
            h,
            pos,
            slots,
            secs,
            covered,
            k,
        ).nodes == 30_000 && g.tries(h, pos, slots, secs, covered, k).best_score != g.bound,
    decreases g.order.len() - pos, 0int, g.options(slots, pos).len() - k,
{
    let wider = covered.union(g.job(pos).checks);
    if k < g.options(slots, pos).len() {
        let i = g.options(slots, pos)[k as int];
        let more = (secs + extra(g.rates, slots[i as int].shape, g.job(pos))) as nat;
        let after = g.visit(h, pos + 1, g.filled(slots, pos, i), more, wider);
        lemma_visit_spent(g, h, pos + 1, g.filled(slots, pos, i), more, wider);
        if !after.exhausted {
            lemma_tries_spent(g, after, pos, slots, secs, covered, k + 1);
        }
    } else {
        let more = secs + g.rates.duration(g.job(pos).checks);
        lemma_visit_spent(g, h, pos + 1, g.opened(slots, pos), more, wider);
    }
}

/// How far planning searches. Up to 12 distinct check sets are searched in full. Up to 64
/// are searched through at most 30,000 nodes, and the search is reported as cut short only
/// if it has visited that many. Beyond that nothing is searched.
pub proof fn lemma_search_limits(
    rates: Rates,
    now: u64,
    policy: Policy,
    items: Map<usize, Shape>,
    previous: Seq<Team>,
)
    requires
        items.dom().finite(),
    ensures
        ({
            let cost = effort(rates, now, policy, items, previous);
            &&& cost.patterns == items.dom().map(|t: usize| items[t].checks).len()
            &&& cost.exact <= 1 && cost.bounded <= 1 && cost.exhaustions <= 1
            &&& cost.patterns <= 12 ==> cost.bounded == 0
            &&& cost.patterns > 12 ==> cost.exact == 0
            &&& cost.bounded == 0 ==> cost.nodes == 0 && cost.exhaustions == 0
            &&& cost.nodes <= 30_000
            &&& cost.patterns <= 64 && cost.exhaustions == 1 ==> cost.nodes == 30_000
            &&& cost.patterns <= PATTERN_LIMIT && cost.exhaustions == 1 ==> cost.nodes
                == NODE_BUDGET
            &&& cost.patterns > 64 ==> cost.nodes == 0
        }),
{
    let all = patterns(items, items.dom());
    let start = greedy(rates, now, all);
    let ks = kinds(items, items.dom());
    items.dom().lemma_map_finite(|t: usize| items[t].checks);
    lemma_bits_orders(ks);
    lemma_listing(ks, |a: Set<usize>, b: Set<usize>| bits_lt(a, b));
    assert(items.dom().map(|t: usize| items[t].checks) =~= ks);
    lemma_effort(rates, now, policy, items, previous);
    lemma_visit_spent(
        field(rates, now, shapes(all)),
        opening(rates, all, start),
        0,
        Seq::empty(),
        0,
        Set::empty(),
    );
    reveal(effort);
}

/// Bounded improvement of a plan. A plan that no division can beat is left alone, and so is
/// one of more than 64 patterns, which is reported as cut short. Any other is searched
/// through at most 30,000 nodes, and reported as cut short only if all have been visited.
pub proof fn lemma_improvement_limits(rates: Rates, now: u64, all: Seq<Team>, initial: Seq<Team>)
    ensures
        ({
            let met = (initial.len(), seconds(rates, shapes(initial))) == lower_bound(
                rates,
                now,
                shapes(all),
            );
            let after = improved(rates, now, all, initial);
            let visited = nodes(rates, now, all, initial);
            let cut = stopped(rates, now, all, initial);
            &&& met ==> after == initial && visited == 0 && !cut
            &&& !met && all.len() > 64 ==> after == initial && visited == 0 && cut
            &&& visited <= 30_000
            &&& all.len() <= 64 && cut ==> visited == 30_000
            &&& !met && all.len() <= 64 ==> visited >= 1
        }),
{
    let g = field(rates, now, shapes(all));
    let start = opening(rates, all, initial);
    lemma_visit_spent(g, start, 0, Seq::empty(), 0, Set::empty());
    if all.len() <= 64 && start.best_score != g.bound {
        lemma_upto(all.len());
        lemma_harder_orders(rates, shapes(all), upto(all.len()));
        lemma_listing(
            upto(all.len()),
            |a: usize, b: usize| harder(rates, shapes(all), a, b),
        );
        lemma_first_node(g, start);
    }
}

/// A search that is cut short has not met the bound.
pub proof fn lemma_cut_above_bound(
    rates: Rates,
    now: u64,
    all: Seq<Team>,
    whole: Set<usize>,
    parts: Seq<Set<usize>>,
)
    requires
        splits(crews(all), whole),
        0 < all.len() <= 64,
        forall|i: int| 0 <= i < all.len() ==> rates.fits((#[trigger] all[i]).shape, now),
        splits(parts, upto(all.len())),
        feasible(rates, indexed(shapes(all)), parts, now),
        stopped(rates, now, all, bundles(all, parts)),
    ensures
        ({
            let after = improved(rates, now, all, bundles(all, parts));
            (after.len(), seconds(rates, shapes(after))) != lower_bound(rates, now, shapes(all))
        }),
{
    let _ = lemma_improved(rates, now, all, whole, parts);
    lemma_visit_spent(
        field(rates, now, shapes(all)),
        opening(rates, all, bundles(all, parts)),
        0,
        Seq::empty(),
        0,
        Set::empty(),
    );
}

/// A search that has not met the bound visits a node.
proof fn lemma_first_node(g: Ground, h: Hunt)
    requires
        h.best_score != g.bound,
        h.nodes < 30_000,
        g.order.len() <= usize::MAX,
    ensures
        g.visit(h, 0, Seq::empty(), 0, Set::empty()).nodes > h.nodes,
{
    lemma_node_count(g, h, 0, Seq::empty(), 0, Set::empty());
}

/// When planning searches: where the carried plan has several batches and does not meet the
/// bound, or, where only the count decides, not the bound on that, and one batch would not
/// do for all. What it counts then is what bounded improvement of the plan made from scratch
/// takes, or a full search. A plan that is neither carried on nor a single batch has been
/// searched for.
pub proof fn lemma_search_needed(
    rates: Rates,
    now: u64,
    policy: Policy,
    items: Map<usize, Shape>,
    previous: Seq<Team>,
)
    requires
        ready(rates, now, items, previous),
    ensures
        ({
            let cost = effort(rates, now, policy, items, previous);
            let old = carried(rates, now, items, previous);
            let new = plan(rates, now, policy, items, previous);
            let all = patterns(items, items.dom());
            let scratch = greedy(rates, now, all);
            let bound = lower_bound(rates, now, shapes(all));
            let met = old.len() == bound.0 && (policy == Policy::Count || machine_seconds(
                rates,
                items,
                crews(old),
            ) == bound.1);
            let one = inhabited(items.dom()) && now + rates.boot + rates.work(
                gather(items, items.dom()).checks,
            ) <= gather(items, items.dom()).deadline;
            &&& cost.exact + cost.bounded == 1 <==> old.len() > 1 && !met && !one
            &&& cost.exact + cost.bounded <= 1
            &&& cost.bounded == 1 ==> cost.nodes == nodes(rates, now, all, scratch) && (
            cost.exhaustions == 1 <==> stopped(rates, now, all, scratch))
            &&& new == old || new.len() == 1 || cost.exact + cost.bounded == 1
        }),
{
    let old = carried(rates, now, items, previous);
    assert(old.len() > 0 ==> inhabited(items.dom())) by {
        lemma_carried(rates, now, items, previous);
        if old.len() > 0 {
            assert(inhabited(crews(old)[0]));
            let t = choose|t: usize| #[trigger] crews(old)[0].contains(t);
            assert(items.dom().contains(t));
        }
    }
    assert(score(rates, shapes(old)) == (
        old.len(),
        machine_seconds(rates, items, crews(old)),
    )) by {
        lemma_carried(rates, now, items, previous);
        lemma_team_seconds(rates, items, old);
    }
    if inhabited(items.dom()) {
        lemma_one_for_all(rates, now, items);
    }
    lemma_search_counted(rates, now, policy, items, previous);
}

/// What planning counts.
proof fn lemma_search_counted(
    rates: Rates,
    now: u64,
    policy: Policy,
    items: Map<usize, Shape>,
    previous: Seq<Team>,
)
    ensures
        ({
            let cost = effort(rates, now, policy, items, previous);
            let old = carried(rates, now, items, previous);
            let new = plan(rates, now, policy, items, previous);
            let all = patterns(items, items.dom());
            let scratch = greedy(rates, now, all);
            let idle = unquestioned(rates, now, policy, all, old) || together(rates, now, all);
            &&& cost.exact + cost.bounded == 1 <==> !idle
            &&& cost.exact + cost.bounded <= 1
            &&& cost.bounded == 1 ==> cost.nodes == nodes(rates, now, all, scratch) && (
            cost.exhaustions == 1 <==> stopped(rates, now, all, scratch))
            &&& new == old || new.len() == 1 || cost.exact + cost.bounded == 1
        }),
{
    reveal(plan);
    reveal(effort);
}

/// One batch would do for all patterns exactly if it would for all jobs.
proof fn lemma_one_for_all(rates: Rates, now: u64, items: Map<usize, Shape>)
    requires
        items.dom().finite(),
        items.dom().len() <= usize::MAX,
        inhabited(items.dom()),
        forall|t: usize| #[trigger] items.contains_key(t) ==> rates.fits(items[t], now),
    ensures
        total(shapes(patterns(items, items.dom()))) == gather(items, items.dom()),
{
    let all = patterns(items, items.dom());
    let whole = seq![upto(all.len())];
    lemma_all(rates, now, items);
    assert(upto(all.len()).contains(0));
    assert(splits(whole, upto(all.len()))) by {
        assert forall|x: usize| upto(all.len()).contains(x) implies exists|i: int|
            0 <= i < whole.len() && #[trigger] whole[i].contains(x) by {
            assert(whole[0].contains(x));
        }
    }
    lemma_bundles_arrange(items, all, items.dom(), whole);
    let one = bundles(all, whole);
    lemma_single(crews(one), items.dom());
    assert(one[0].shape == gather(items, one[0].members));
    assert(one[0].members == crews(one)[0]);
    assert(one[0].shape == total(shapes(all)));
}

/// A plan is a best one where planning is not cut short. With at most 12 distinct check
/// sets that is always so, and with at most 64 if fewer than 30,000 nodes were visited. No
/// division of the waiting jobs into blocks, each still done in time when started now, has
/// fewer blocks than the plan has batches, or, where cost decides, as many that take fewer
/// seconds.
pub proof fn lemma_best_plan(
    rates: Rates,
    now: u64,
    policy: Policy,
    items: Map<usize, Shape>,
    previous: Seq<Team>,
    blocks: Seq<Set<usize>>,
)
    requires
        ready(rates, now, items, previous),
        ({
            let cost = effort(rates, now, policy, items, previous);
            ||| cost.exhaustions == 0
            ||| cost.patterns <= 12
            ||| cost.patterns <= 64 && cost.nodes < 30_000
        }),
        splits(blocks, items.dom()),
        forall|b: int|
            0 <= b < blocks.len() ==> now + rates.boot + rates.work(
                gather(items, #[trigger] blocks[b]).checks,
            ) <= gather(items, blocks[b]).deadline,
    ensures
        ({
            let made = plan(rates, now, policy, items, previous);
            &&& made.len() <= blocks.len()
            &&& policy == Policy::Cost && made.len() == blocks.len() ==> machine_seconds(
                rates,
                items,
                crews(made),
            ) <= machine_seconds(rates, items, blocks)
        }),
{
    lemma_search_limits(rates, now, policy, items, previous);
    lemma_plan(rates, now, policy, items, previous);
    lemma_plan_best(rates, now, policy, items, previous, blocks);
    lemma_team_seconds(rates, items, plan(rates, now, policy, items, previous));
    lemma_machine_seconds(rates, items, blocks);
}

} // verus!
