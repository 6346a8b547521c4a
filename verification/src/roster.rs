//! The member lists of planned batches: who stands where on each list.
use vstd::prelude::*;

use crate::cover::best_parts;
use crate::hunt::PATTERN_LIMIT;
use crate::listing::{ascending, upto};
use crate::partition::score;
use crate::plan::{
    alternative, carried, greedy, held, hunted, kept, prefers, together, unbeatable, unquestioned,
    EXACT_PATTERN_LIMIT,
};
use crate::policy::Policy;
use crate::shape::{Rates, Shape};
use crate::team::{best_fit, patterns, placed_upto, shapes, urgency, Team};

verus! {

/// Those of the listed jobs that ask for exactly `kind`, in the order of the list.
pub open spec fn of_kind(items: Map<usize, Shape>, tokens: Seq<usize>, kind: Set<usize>) -> Seq<
    usize,
> {
    tokens.filter(|t: usize| items[t].checks == kind)
}

/// The member lists of the patterns of the listed jobs.
pub open spec fn pattern_lists(items: Map<usize, Shape>, tokens: Seq<usize>) -> Seq<Seq<usize>> {
    patterns(items, tokens.to_set()).map_values(
        |team: Team| of_kind(items, tokens, team.shape.checks),
    )
}

/// Those on the list that still wait.
pub open spec fn left_on(items: Map<usize, Shape>, list: Seq<usize>) -> Seq<usize> {
    list.filter(|t: usize| items.contains_key(t))
}

/// What is left of each list when only `items` still wait, without empty lists.
pub open spec fn kept_lists(items: Map<usize, Shape>, lists: Seq<Seq<usize>>) -> Seq<Seq<usize>>
    decreases lists.len(),
{
    if lists.len() == 0 {
        Seq::empty()
    } else {
        let rest = kept_lists(items, lists.drop_last());
        let live = left_on(items, lists.last());
        if live.len() > 0 {
            rest.push(live)
        } else {
            rest
        }
    }
}

/// Newcomers stand behind the members of their host, or on a list of their own.
pub open spec fn seated(
    lists: Seq<Seq<usize>>,
    host: Option<usize>,
    newcomers: Seq<usize>,
) -> Seq<Seq<usize>> {
    match host {
        Some(i) => lists.update(i as int, lists[i as int] + newcomers),
        None => lists.push(newcomers),
    }
}

/// The lists after placing the first `k` of `incoming` in the given order.
pub open spec fn seated_upto(
    rates: Rates,
    now: u64,
    teams: Seq<Team>,
    lists: Seq<Seq<usize>>,
    incoming: Seq<Team>,
    more: Seq<Seq<usize>>,
    order: Seq<usize>,
    k: nat,
) -> Seq<Seq<usize>>
    decreases k,
{
    if k == 0 {
        lists
    } else {
        let j = order[k - 1] as int;
        let before = placed_upto(rates, now, teams, incoming, order, (k - 1) as nat);
        seated(
            seated_upto(rates, now, teams, lists, incoming, more, order, (k - 1) as nat),
            best_fit(rates, now, shapes(before), incoming[j].shape),
            more[j],
        )
    }
}

/// The lists after placing all of `incoming` one by one.
pub open spec fn inserted_lists(
    rates: Rates,
    now: u64,
    teams: Seq<Team>,
    lists: Seq<Seq<usize>>,
    incoming: Seq<Team>,
    more: Seq<Seq<usize>>,
) -> Seq<Seq<usize>> {
    seated_upto(
        rates,
        now,
        teams,
        lists,
        incoming,
        more,
        urgency(rates, shapes(incoming)),
        incoming.len(),
    )
}

/// The lists at the given positions, one behind the other.
pub open spec fn strung(lists: Seq<Seq<usize>>, which: Seq<usize>) -> Seq<usize>
    decreases which.len(),
{
    if which.len() == 0 {
        Seq::empty()
    } else {
        strung(lists, which.drop_last()) + lists[which.last() as int]
    }
}

/// One list for each list of positions.
pub open spec fn strung_all(lists: Seq<Seq<usize>>, which: Seq<Seq<usize>>) -> Seq<Seq<usize>> {
    which.map_values(|some: Seq<usize>| strung(lists, some))
}

/// The positions in each block, in increasing order.
pub open spec fn in_turn(parts: Seq<Set<usize>>) -> Seq<Seq<usize>> {
    parts.map_values(|part: Set<usize>| ascending(part))
}

/// Everyone on the lists, one list behind the other.
pub open spec fn roll_call(lists: Seq<Seq<usize>>) -> Seq<usize>
    decreases lists.len(),
{
    if lists.len() == 0 {
        Seq::empty()
    } else {
        roll_call(lists.drop_last()) + lists.last()
    }
}

/// The lists are of the members of these batches.
pub open spec fn matched(teams: Seq<Team>, lists: Seq<Seq<usize>>) -> bool {
    &&& lists.len() == teams.len()
    &&& forall|i: int| 0 <= i < lists.len() ==> (#[trigger] lists[i]).to_set() == teams[i].members
}

/// The member lists after bounded improvement.
pub open spec fn improved_lists(
    rates: Rates,
    now: u64,
    all: Seq<Team>,
    all_lists: Seq<Seq<usize>>,
    initial: Seq<Team>,
    initial_lists: Seq<Seq<usize>>,
) -> Seq<Seq<usize>> {
    if unbeatable(rates, now, all, initial) || all.len() > PATTERN_LIMIT {
        initial_lists
    } else {
        strung_all(all_lists, hunted(rates, now, all, initial).best)
    }
}

/// The member lists of the plan that competes with the carried one.
pub open spec fn alternative_lists(
    rates: Rates,
    now: u64,
    all: Seq<Team>,
    all_lists: Seq<Seq<usize>>,
) -> Seq<Seq<usize>> {
    if together(rates, now, all) {
        strung_all(all_lists, in_turn(seq![upto(all.len())]))
    } else if all.len() <= EXACT_PATTERN_LIMIT {
        strung_all(all_lists, in_turn(best_parts(rates, now, shapes(all))))
    } else {
        improved_lists(
            rates,
            now,
            all,
            all_lists,
            greedy(rates, now, all),
            inserted_lists(rates, now, Seq::empty(), Seq::empty(), all, all_lists),
        )
    }
}

/// The member lists of the plan that keeps every assignment.
pub open spec fn carried_lists(
    rates: Rates,
    now: u64,
    items: Map<usize, Shape>,
    previous: Seq<Team>,
    lists: Seq<Seq<usize>>,
) -> Seq<Seq<usize>> {
    let stay = kept(items, previous);
    let others = items.dom().difference(held(stay));
    inserted_lists(
        rates,
        now,
        stay,
        kept_lists(items, lists),
        patterns(items, others),
        pattern_lists(items, ascending(others)),
    )
}

/// The member lists of the plan for the waiting jobs.
#[verifier::opaque]
pub open spec fn plan_lists(
    rates: Rates,
    now: u64,
    policy: Policy,
    items: Map<usize, Shape>,
    previous: Seq<Team>,
    lists: Seq<Seq<usize>>,
) -> Seq<Seq<usize>> {
    let stable = carried(rates, now, items, previous);
    let all = patterns(items, items.dom());
    if !unquestioned(rates, now, policy, all, stable) && prefers(
        policy,
        score(rates, shapes(alternative(rates, now, all))),
        score(rates, shapes(stable)),
    ) {
        alternative_lists(rates, now, all, pattern_lists(items, ascending(items.dom())))
    } else {
        carried_lists(rates, now, items, previous, lists)
    }
}

} // verus!
