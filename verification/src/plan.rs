//! What a plan is: a feasible division of the waiting jobs that keeps its assignments
//! unless rearranging them pays.
use vstd::prelude::*;

use crate::bound::{lower_bound, total};
use crate::cover::best_parts;
use crate::hunt::{difficulty, Ground, Hunt, PATTERN_LIMIT};
use crate::hunt_laws::index_sets;
use crate::listing::{ascending, upto};
use crate::partition::{beats, feasible, indexed, inhabited, score, splits};
use crate::policy::{Effort, Policy, Stats};
use crate::shape::{Rates, Shape};
use crate::team::{bundles, crews, inserted, on_time, patterns, shapes, team_of, Team};

verus! {

// Subset partitioning grows as 3^k. Keep it confined to small pattern counts;
// larger inputs still get a valid plan and bounded improvement.
// This is a resource tradeoff, not a correctness requirement or workload rule.
pub const EXACT_PATTERN_LIMIT: usize = 12;

/// What is left of the planned batches when only `items` still wait.
pub open spec fn kept(items: Map<usize, Shape>, previous: Seq<Team>) -> Seq<Team>
    decreases previous.len(),
{
    if previous.len() == 0 {
        Seq::empty()
    } else {
        let rest = kept(items, previous.drop_last());
        let live = previous.last().members.intersect(items.dom());
        if inhabited(live) {
            rest.push(team_of(items, live))
        } else {
            rest
        }
    }
}

/// All members of the planned batches.
pub open spec fn held(teams: Seq<Team>) -> Set<usize> {
    Set::new(
        |t: usize|
            exists|i: int| 0 <= i < teams.len() && (#[trigger] teams[i]).members.contains(t),
    )
}

/// No job is in two planned batches.
pub open spec fn apart(teams: Seq<Team>) -> bool {
    forall|i: int, j: int, t: usize|
        0 <= i < teams.len() && 0 <= j < teams.len() && #[trigger] teams[i].members.contains(t)
            && #[trigger] teams[j].members.contains(t) ==> i == j
}

/// The planned batches can be carried on: no job is in two of them, every waiting job
/// can still run alone, and what is left of each batch can still wait.
pub open spec fn ready(rates: Rates, now: u64, items: Map<usize, Shape>, previous: Seq<Team>) -> bool {
    &&& items.dom().finite()
    &&& items.dom().len() <= usize::MAX
    &&& apart(previous)
    &&& forall|t: usize| #[trigger] items.contains_key(t) ==> rates.fits(items[t], now)
    &&& on_time(rates, kept(items, previous), now)
}

/// The plan that keeps every assignment and places the other jobs one by one.
pub open spec fn carried(
    rates: Rates,
    now: u64,
    items: Map<usize, Shape>,
    previous: Seq<Team>,
) -> Seq<Team> {
    let stay = kept(items, previous);
    inserted(rates, now, stay, patterns(items, items.dom().difference(held(stay))))
}

/// The patterns that have members in `crew`.
pub open spec fn holders(all: Seq<Team>, crew: Set<usize>) -> Set<usize> {
    Set::new(|i: usize| i < all.len() && inhabited(all[i as int].members.intersect(crew)))
}

/// What the bounded search works on.
pub open spec fn field(rates: Rates, now: u64, s: Seq<Shape>) -> Ground {
    Ground {
        rates,
        now,
        shapes: s,
        order: difficulty(rates, s),
        bound: lower_bound(rates, now, s),
        total_work: rates.work(total(s).checks),
    }
}

/// Where the bounded search starts from.
pub open spec fn opening(rates: Rates, all: Seq<Team>, initial: Seq<Team>) -> Hunt {
    Hunt {
        best: initial.map_values(|team: Team| ascending(holders(all, team.members))),
        best_score: score(rates, shapes(initial)),
        nodes: 0,
        exhausted: false,
        seen: Set::empty(),
    }
}

/// What the bounded search ends with.
pub open spec fn hunted(rates: Rates, now: u64, all: Seq<Team>, initial: Seq<Team>) -> Hunt {
    field(rates, now, shapes(all)).visit(
        opening(rates, all, initial),
        0,
        Seq::empty(),
        0,
        Set::empty(),
    )
}

/// The initial plan is already as good as any.
pub open spec fn unbeatable(rates: Rates, now: u64, all: Seq<Team>, initial: Seq<Team>) -> bool {
    score(rates, shapes(initial)) == lower_bound(rates, now, shapes(all))
}

/// The initial plan after bounded improvement.
pub open spec fn improved(rates: Rates, now: u64, all: Seq<Team>, initial: Seq<Team>) -> Seq<Team> {
    if unbeatable(rates, now, all, initial) || all.len() > PATTERN_LIMIT {
        initial
    } else {
        bundles(all, index_sets(hunted(rates, now, all, initial).best))
    }
}

/// The nodes that bounded improvement visits.
pub open spec fn nodes(rates: Rates, now: u64, all: Seq<Team>, initial: Seq<Team>) -> nat {
    if unbeatable(rates, now, all, initial) || all.len() > PATTERN_LIMIT {
        0
    } else {
        hunted(rates, now, all, initial).nodes
    }
}

/// Whether bounded improvement stopped at one of its limits.
pub open spec fn stopped(rates: Rates, now: u64, all: Seq<Team>, initial: Seq<Team>) -> bool {
    &&& !unbeatable(rates, now, all, initial)
    &&& all.len() > PATTERN_LIMIT || hunted(rates, now, all, initial).exhausted
}

/// The initial plan divides the patterns, and can wait until `now`.
pub open spec fn made_of(rates: Rates, now: u64, all: Seq<Team>, initial: Seq<Team>) -> bool {
    &&& splits(crews(all), held(all))
    &&& exists|parts: Seq<Set<usize>>|
        initial == #[trigger] bundles(all, parts) && splits(parts, upto(all.len())) && feasible(
            rates,
            indexed(shapes(all)),
            parts,
            now,
        )
}

/// Every job in one batch can still wait until `now`.
pub open spec fn together(rates: Rates, now: u64, all: Seq<Team>) -> bool {
    rates.fits(total(shapes(all)), now)
}

/// Every pattern placed one by one.
pub open spec fn greedy(rates: Rates, now: u64, all: Seq<Team>) -> Seq<Team> {
    inserted(rates, now, Seq::empty(), all)
}

/// The plan that competes with the carried one.
pub open spec fn alternative(rates: Rates, now: u64, all: Seq<Team>) -> Seq<Team> {
    if together(rates, now, all) {
        bundles(all, seq![upto(all.len())])
    } else if all.len() <= EXACT_PATTERN_LIMIT {
        bundles(all, best_parts(rates, now, shapes(all)))
    } else {
        improved(rates, now, all, greedy(rates, now, all))
    }
}

/// Nothing could justify rearranging the plan.
pub open spec fn unquestioned(
    rates: Rates,
    now: u64,
    policy: Policy,
    all: Seq<Team>,
    stable: Seq<Team>,
) -> bool {
    let bound = lower_bound(rates, now, shapes(all));
    let old = score(rates, shapes(stable));
    stable.len() <= 1 || old == bound || policy == Policy::Count && old.0 == bound.0
}

/// The score that justifies rearranging.
pub open spec fn prefers(policy: Policy, new: (nat, nat), old: (nat, nat)) -> bool {
    match policy {
        Policy::Cost => beats(new, old),
        Policy::Count => new.0 < old.0,
    }
}

/// The plan for the waiting jobs.
/// Equal-cost rearrangements have no demonstrated benefit and can change
/// future launch opportunities, so the incumbent stays rather than churning.
#[verifier::opaque]
pub open spec fn plan(
    rates: Rates,
    now: u64,
    policy: Policy,
    items: Map<usize, Shape>,
    previous: Seq<Team>,
) -> Seq<Team> {
    let stable = carried(rates, now, items, previous);
    let all = patterns(items, items.dom());
    if unquestioned(rates, now, policy, all, stable) {
        stable
    } else if prefers(
        policy,
        score(rates, shapes(alternative(rates, now, all))),
        score(rates, shapes(stable)),
    ) {
        alternative(rates, now, all)
    } else {
        stable
    }
}

/// What planning costs.
#[verifier::opaque]
pub open spec fn effort(
    rates: Rates,
    now: u64,
    policy: Policy,
    items: Map<usize, Shape>,
    previous: Seq<Team>,
) -> Effort {
    let stable = carried(rates, now, items, previous);
    let all = patterns(items, items.dom());
    let idle = unquestioned(rates, now, policy, all, stable) || together(rates, now, all);
    let exact = !idle && all.len() <= EXACT_PATTERN_LIMIT;
    let bounded = !idle && all.len() > EXACT_PATTERN_LIMIT;
    let start = greedy(rates, now, all);
    Effort {
        patterns: all.len(),
        exact: if exact {
            1
        } else {
            0
        },
        bounded: if bounded {
            1
        } else {
            0
        },
        nodes: if bounded {
            nodes(rates, now, all, start)
        } else {
            0
        },
        exhaustions: if bounded && stopped(rates, now, all, start) {
            1
        } else {
            0
        },
    }
}

/// The diagnostics after making the competing plan.
pub open spec fn competed(stats: Stats, rates: Rates, now: u64, all: Seq<Team>) -> Stats {
    let exact = !together(rates, now, all) && all.len() <= EXACT_PATTERN_LIMIT;
    let bounded = !together(rates, now, all) && all.len() > EXACT_PATTERN_LIMIT;
    let start = greedy(rates, now, all);
    Stats {
        exact_searches: stats.exact_searches.wrapping_add(
            if exact {
                1usize
            } else {
                0
            },
        ),
        bounded_searches: stats.bounded_searches.wrapping_add(
            if bounded {
                1usize
            } else {
                0
            },
        ),
        search_nodes: stats.search_nodes.wrapping_add(
            if bounded {
                nodes(rates, now, all, start) as usize
            } else {
                0
            },
        ),
        search_budget_exhaustions: stats.search_budget_exhaustions.wrapping_add(
            if bounded && stopped(rates, now, all, start) {
                1usize
            } else {
                0
            },
        ),
        ..stats
    }
}

} // verus!
