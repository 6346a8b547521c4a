//! Plans divide the waiting jobs, keep everybody on time, and never get worse.
use vstd::prelude::*;

use crate::cover::{best_parts, lemma_best_found};
use crate::hunt::{lemma_harder_orders, Ground, PATTERN_LIMIT};
use crate::hunt_laws::{attains, index_sets, lemma_tidy_start, lemma_visit_proper};
use crate::listing::{ascending, lemma_ascending, lemma_listing, lemma_upto, upto};
use crate::partition::{
    beats, feasible, gathered, indexed, inhabited, lemma_splits_finite, lemma_splits_grow,
    lemma_splits_insert, lemma_splits_len, score, splits,
};
use crate::plan::{
    alternative, apart, made_of, ready, carried, field, greedy, held, holders, hunted, improved,
    kept, opening, stopped, together, unbeatable, EXACT_PATTERN_LIMIT,
};
use crate::shape::{
    gather, lemma_gather_empty, lemma_gather_insert, lemma_gather_one, lemma_gather_union, Rates,
    Shape,
};
use crate::team::{
    arranges, best_fit, bundle, bundles, crew_of, crews, lemma_inserted, lemma_patterns_arrange,
    lemma_patterns_on_time, lemma_best_fit, lemma_crew_empty, lemma_crew_insert, lemma_urgency,
    merge, on_time, patterns, placed_upto, shapes, urgency, Team,
};

verus! {

/// A batch of patterns asks for what its members ask for.
pub proof fn lemma_gather_bundle(
    items: Map<usize, Shape>,
    all: Seq<Team>,
    whole: Set<usize>,
    block: Set<usize>,
)
    requires
        arranges(items, all, whole),
        whole.finite(),
        all.len() <= usize::MAX,
        block.subset_of(upto(all.len())),
    ensures
        gather(items, crew_of(all, block)) == gather(indexed(shapes(all)), block),
        crew_of(all, block).finite(),
    decreases block.len(),
{
    lemma_upto(all.len());
    vstd::set_lib::lemma_set_subset_finite(upto(all.len()), block);
    if block.len() == 0 {
        assert(block =~= Set::empty());
        lemma_crew_empty(all);
        lemma_gather_empty(items);
        lemma_gather_empty(indexed(shapes(all)));
    } else {
        let i = block.choose();
        let rest = block.remove(i);
        assert(block =~= rest.insert(i));
        assert(upto(all.len()).contains(i));
        lemma_gather_bundle(items, all, whole, rest);
        lemma_crew_insert(all, rest, i);
        lemma_splits_finite(crews(all), whole);
        assert(crews(all)[i as int] == all[i as int].members);
        lemma_gather_union(items, crew_of(all, rest), all[i as int].members);
        lemma_gather_insert(indexed(shapes(all)), rest, i);
        assert(shapes(all)[i as int] == all[i as int].shape);
    }
}

/// Dividing the patterns divides the jobs.
pub proof fn lemma_bundles_arrange(
    items: Map<usize, Shape>,
    all: Seq<Team>,
    whole: Set<usize>,
    parts: Seq<Set<usize>>,
)
    requires
        arranges(items, all, whole),
        whole.finite(),
        all.len() <= usize::MAX,
        splits(parts, upto(all.len())),
    ensures
        arranges(items, bundles(all, parts), whole),
        shapes(bundles(all, parts)) == gathered(indexed(shapes(all)), parts),
{
    let made = bundles(all, parts);
    let crew = crews(made);
    let old = crews(all);
    assert forall|i: int| 0 <= i < made.len() implies (#[trigger] made[i]).shape == gather(
        items,
        made[i].members,
    ) && crew[i] == crew_of(all, parts[i]) by {
        assert(made[i] == bundle(all, parts[i]));
        assert(parts[i].subset_of(upto(all.len()))) by {
            assert forall|x: usize| parts[i].contains(x) implies upto(all.len()).contains(x) by {}
        }
        lemma_gather_bundle(items, all, whole, parts[i]);
    }
    assert forall|i: int| 0 <= i < crew.len() implies inhabited(#[trigger] crew[i]) by {
        assert(made[i].members == crew[i]);
        assert(inhabited(parts[i]));
        let x = choose|x: usize| #[trigger] parts[i].contains(x);
        assert(upto(all.len()).contains(x));
        assert(inhabited(old[x as int]));
        let t = choose|t: usize| #[trigger] old[x as int].contains(t);
        assert(all[x as int].members.contains(t));
        assert(crew_of(all, parts[i]).contains(t));
    }
    assert forall|i: int, t: usize|
        0 <= i < crew.len() && #[trigger] crew[i].contains(t) implies whole.contains(t) by {
        assert(made[i].members == crew[i]);
        let x = choose|x: usize| #[trigger]
            parts[i].contains(x) && x < all.len() && all[x as int].members.contains(t);
        assert(old[x as int].contains(t));
    }
    assert forall|t: usize| whole.contains(t) implies exists|i: int|
        0 <= i < crew.len() && #[trigger] crew[i].contains(t) by {
        let x = choose|x: int| 0 <= x < old.len() && #[trigger] old[x].contains(t);
        assert(upto(all.len()).contains(x as usize));
        let i = choose|i: int| 0 <= i < parts.len() && #[trigger] parts[i].contains(x as usize);
        assert(made[i].members == crew[i]);
        assert(crew_of(all, parts[i]).contains(t));
    }
    assert forall|i: int, j: int, t: usize|
        0 <= i < crew.len() && 0 <= j < crew.len() && #[trigger] crew[i].contains(t)
            && #[trigger] crew[j].contains(t) implies i == j by {
        assert(made[i].members == crew[i]);
        assert(made[j].members == crew[j]);
        let x = choose|x: usize| #[trigger]
            parts[i].contains(x) && x < all.len() && all[x as int].members.contains(t);
        let y = choose|y: usize| #[trigger]
            parts[j].contains(y) && y < all.len() && all[y as int].members.contains(t);
        assert(old[x as int].contains(t));
        assert(old[y as int].contains(t));
        assert(x == y);
    }
    assert(splits(crew, whole));
    assert(shapes(made) =~= gathered(indexed(shapes(all)), parts));
}

/// A batch of patterns has members in just these patterns.
pub proof fn lemma_holders(all: Seq<Team>, whole: Set<usize>, block: Set<usize>)
    requires
        splits(crews(all), whole),
        block.subset_of(upto(all.len())),
    ensures
        holders(all, crew_of(all, block)) == block,
{
    let crew = crew_of(all, block);
    let old = crews(all);
    assert forall|i: usize| holders(all, crew).contains(i) <==> block.contains(i) by {
        if holders(all, crew).contains(i) {
            let t = choose|t: usize| #[trigger] all[i as int].members.intersect(crew).contains(t);
            let x = choose|x: usize| #[trigger]
                block.contains(x) && x < all.len() && all[x as int].members.contains(t);
            assert(old[x as int].contains(t));
            assert(old[i as int].contains(t));
        }
        if block.contains(i) {
            assert(upto(all.len()).contains(i));
            assert(inhabited(old[i as int]));
            let t = choose|t: usize| #[trigger] old[i as int].contains(t);
            assert(all[i as int].members.contains(t));
            assert(crew.contains(t));
            assert(all[i as int].members.intersect(crew).contains(t));
        }
    }
    assert(holders(all, crew) =~= block);
}

// Placing patterns one by one.

/// The division of the patterns after placing the first `k` in the order.
pub open spec fn placed_parts(rates: Rates, now: u64, all: Seq<Team>, order: Seq<usize>, k: nat) -> Seq<
    Set<usize>,
>
    decreases k,
{
    if k == 0 {
        Seq::empty()
    } else {
        let before = placed_parts(rates, now, all, order, (k - 1) as nat);
        let x = order[k - 1];
        match best_fit(rates, now, shapes(bundles(all, before)), all[x as int].shape) {
            Some(i) => before.update(i as int, before[i as int].insert(x)),
            None => before.push(set![x]),
        }
    }
}

proof fn lemma_placed_parts(rates: Rates, now: u64, all: Seq<Team>, order: Seq<usize>, k: nat)
    requires
        on_time(rates, all, now),
        all.len() <= usize::MAX,
        order.no_duplicates(),
        order.len() == all.len(),
        forall|i: int| 0 <= i < order.len() ==> (#[trigger] order[i]) < all.len(),
        k <= order.len(),
    ensures
        placed_upto(rates, now, Seq::empty(), all, order, k) == bundles(
            all,
            placed_parts(rates, now, all, order, k),
        ),
        splits(placed_parts(rates, now, all, order, k), order.take(k as int).to_set()),
        feasible(rates, indexed(shapes(all)), placed_parts(rates, now, all, order, k), now),
        placed_parts(rates, now, all, order, k).len() <= k,
    decreases k,
{
    let items = indexed(shapes(all));
    let parts = placed_parts(rates, now, all, order, k);
    if k == 0 {
        assert(bundles(all, parts) =~= Seq::<Team>::empty());
        assert(order.take(0).to_set() =~= Set::<usize>::empty());
        assert(splits(parts, order.take(0).to_set()));
    } else {
        let before = placed_parts(rates, now, all, order, (k - 1) as nat);
        let x = order[k - 1];
        let done = order.take(k - 1).to_set();
        let made = bundles(all, before);
        lemma_placed_parts(rates, now, all, order, (k - 1) as nat);
        assert(order.take(k as int) =~= order.take(k - 1).push(x));
        order.take(k - 1).lemma_push_to_set_commute(x);
        assert(!done.contains(x)) by {
            if done.contains(x) {
                let q = order.take(k - 1);
                let j = choose|j: int| 0 <= j < q.len() && q[j] == x;
                assert(order[j] == order[k - 1]);
            }
        }
        assert(items[x] == all[x as int].shape);
        assert(rates.fits(all[x as int].shape, now));
        lemma_best_fit(rates, now, shapes(made), all[x as int].shape);
        lemma_splits_finite(before, done);
        match best_fit(rates, now, shapes(made), all[x as int].shape) {
            Some(h) => {
                let i = h as int;
                assert(made[i] == bundle(all, before[i]));
                assert(shapes(made)[i] == made[i].shape);
                lemma_splits_grow(before, done, i, x);
                lemma_gather_insert(items, before[i], x);
                lemma_crew_insert(all, before[i], x);
                assert(bundles(all, parts) =~= made.update(i, merge(made[i], all[x as int])));
                assert forall|j: int| 0 <= j < parts.len() implies rates.fits(
                    gather(items, #[trigger] parts[j]),
                    now,
                ) by {
                    if j != i {
                        assert(parts[j] == before[j]);
                    }
                }
            },
            None => {
                let one: Set<usize> = set![x];
                assert(one.contains(x));
                lemma_splits_insert(before, done, before.len() as int, one);
                assert(before.insert(before.len() as int, one) =~= parts);
                assert(done.union(one) =~= done.insert(x));
                lemma_gather_one(items, x);
                lemma_crew_empty(all);
                lemma_crew_insert(all, Set::empty(), x);
                assert(Set::<usize>::empty().insert(x) =~= one);
                assert(crew_of(all, one) =~= all[x as int].members);
                assert(bundle(all, one) == all[x as int]);
                assert(bundles(all, parts) =~= made.push(all[x as int]));
                assert forall|j: int| 0 <= j < parts.len() implies rates.fits(
                    gather(items, #[trigger] parts[j]),
                    now,
                ) by {
                    if j < before.len() {
                        assert(parts[j] == before[j]);
                    }
                }
            },
        }
    }
}

/// The division of the patterns that placing them one by one makes.
pub open spec fn greedy_parts(rates: Rates, now: u64, all: Seq<Team>) -> Seq<Set<usize>> {
    placed_parts(rates, now, all, urgency(rates, shapes(all)), all.len())
}

/// Placing patterns one by one makes a feasible division.
pub proof fn lemma_greedy(rates: Rates, now: u64, all: Seq<Team>)
    requires
        on_time(rates, all, now),
        all.len() <= usize::MAX,
    ensures
        greedy(rates, now, all) == bundles(all, greedy_parts(rates, now, all)),
        splits(greedy_parts(rates, now, all), upto(all.len())),
        feasible(rates, indexed(shapes(all)), greedy_parts(rates, now, all), now),
{
    let order = urgency(rates, shapes(all));
    lemma_urgency(rates, shapes(all));
    lemma_placed_parts(rates, now, all, order, all.len());
    assert(order.take(all.len() as int) =~= order);
}

// Bounded improvement.

/// What the bounded search works on is in order.
pub proof fn lemma_field(rates: Rates, now: u64, s: Seq<Shape>)
    requires
        0 < s.len() <= usize::MAX,
        forall|i: int| 0 <= i < s.len() ==> rates.fits(#[trigger] s[i], now),
    ensures
        field(rates, now, s).sound(),
{
    let lt = |a: usize, b: usize| crate::hunt::harder(rates, s, a, b);
    lemma_upto(s.len());
    lemma_harder_orders(rates, s, upto(s.len()));
    lemma_listing(upto(s.len()), lt);
}

/// The bounded search starts from the initial plan.
pub proof fn lemma_opening(
    rates: Rates,
    now: u64,
    all: Seq<Team>,
    whole: Set<usize>,
    parts: Seq<Set<usize>>,
)
    requires
        splits(crews(all), whole),
        all.len() <= usize::MAX,
        splits(parts, upto(all.len())),
        feasible(rates, indexed(shapes(all)), parts, now),
    ensures
        index_sets(opening(rates, all, bundles(all, parts)).best) == parts,
        opening(rates, all, bundles(all, parts)).best == parts.map_values(
            |part: Set<usize>| ascending(part),
        ),
        field(rates, now, shapes(all)).proper(
            opening(rates, all, bundles(all, parts)).best,
            opening(rates, all, bundles(all, parts)).best_score,
        ),
{
    let initial = bundles(all, parts);
    let h = opening(rates, all, initial);
    lemma_upto(all.len());
    lemma_splits_finite(parts, upto(all.len()));
    assert forall|i: int| 0 <= i < parts.len() implies #[trigger] h.best[i] == ascending(parts[i])
        && h.best[i].to_set() == parts[i] && h.best[i].no_duplicates() by {
        assert(initial[i] == bundle(all, parts[i]));
        assert(parts[i].subset_of(upto(all.len()))) by {
            assert forall|x: usize| parts[i].contains(x) implies upto(all.len()).contains(x) by {}
        }
        lemma_holders(all, whole, parts[i]);
        lemma_ascending(parts[i]);
    }
    assert(index_sets(h.best) =~= parts);
    assert(h.best =~= parts.map_values(|part: Set<usize>| ascending(part)));
    assert(shapes(initial) =~= gathered(indexed(shapes(all)), parts));
    reveal(Ground::proper);
    assert(attains(field(rates, now, shapes(all)), index_sets(h.best), h.best_score));
}

/// Bounded improvement of a feasible division is a feasible division, never a worse one.
/// A search that stays within its limits finds one that no feasible division beats.
pub proof fn lemma_improved(
    rates: Rates,
    now: u64,
    all: Seq<Team>,
    whole: Set<usize>,
    parts: Seq<Set<usize>>,
) -> (after: Seq<Set<usize>>)
    requires
        splits(crews(all), whole),
        on_time(rates, all, now),
        0 < all.len() <= usize::MAX,
        splits(parts, upto(all.len())),
        feasible(rates, indexed(shapes(all)), parts, now),
    ensures
        improved(rates, now, all, bundles(all, parts)) == bundles(all, after),
        splits(after, upto(all.len())),
        feasible(rates, indexed(shapes(all)), after, now),
        !beats(
            score(rates, shapes(bundles(all, parts))),
            score(rates, shapes(bundles(all, after))),
        ),
        all.len() <= PATTERN_LIMIT && !unbeatable(rates, now, all, bundles(all, parts)) ==> score(
            rates,
            shapes(bundles(all, after)),
        ) == hunted(rates, now, all, bundles(all, parts)).best_score,
        stopped(rates, now, all, bundles(all, parts)) || forall|other: Seq<Set<usize>>|
            splits(other, upto(all.len())) && #[trigger] feasible(
                rates,
                indexed(shapes(all)),
                other,
                now,
            ) ==> !beats(
                score(rates, gathered(indexed(shapes(all)), other)),
                score(rates, shapes(bundles(all, after))),
            ),
{
    let s = shapes(all);
    let initial = bundles(all, parts);
    let g = field(rates, now, s);
    assert(shapes(initial) =~= gathered(indexed(s), parts));
    assert forall|i: int| 0 <= i < s.len() implies rates.fits(#[trigger] s[i], now) by {
        assert(rates.fits(all[i].shape, now));
    }
    lemma_field(rates, now, s);
    if unbeatable(rates, now, all, initial) {
        assert forall|other: Seq<Set<usize>>|
            splits(other, upto(all.len())) && #[trigger] feasible(
                rates,
                indexed(s),
                other,
                now,
            ) implies !beats(
            score(rates, gathered(indexed(s), other)),
            score(rates, shapes(initial)),
        ) by {
            crate::bound::lemma_lower_bound(rates, now, s, other);
        }
        parts
    } else if all.len() > PATTERN_LIMIT {
        parts
    } else {
        let h = opening(rates, all, initial);
        let end = hunted(rates, now, all, initial);
        lemma_opening(rates, now, all, whole, parts);
        lemma_tidy_start(g);
        lemma_visit_proper(g, h, 0, Seq::empty(), 0, Set::empty());
        let after = index_sets(end.best);
        assert(attains(g, after, end.best_score)) by {
            reveal(Ground::proper);
        }
        assert(shapes(bundles(all, after)) =~= gathered(indexed(s), after));
        if !end.exhausted {
            crate::hunt_best::lemma_search_best(g, h);
            assert forall|other: Seq<Set<usize>>|
                splits(other, upto(all.len())) && #[trigger] feasible(
                    rates,
                    indexed(s),
                    other,
                    now,
                ) implies !beats(
                score(rates, gathered(indexed(s), other)),
                end.best_score,
            ) by {
                crate::hunt_laws::lemma_reach_complete(g, other);
            }
        }
        after
    }
}

// Carrying a plan on.

/// What is left of a plan is a plan for what is left of its jobs.
pub proof fn lemma_kept(items: Map<usize, Shape>, previous: Seq<Team>)
    requires
        items.dom().finite(),
        apart(previous),
    ensures
        arranges(items, kept(items, previous), held(kept(items, previous))),
        held(kept(items, previous)) == held(previous).intersect(items.dom()),
        apart(kept(items, previous)),
    decreases previous.len(),
{
    let stay = kept(items, previous);
    if previous.len() == 0 {
        assert(held(stay) =~= held(previous).intersect(items.dom()));
        assert(splits(crews(stay), held(stay)));
    } else {
        let init = previous.drop_last();
        let rest = kept(items, init);
        let last = previous.last();
        let n = init.len() as int;
        let live = last.members.intersect(items.dom());
        assert forall|i: int, j: int, t: usize|
            0 <= i < init.len() && 0 <= j < init.len() && #[trigger] init[i].members.contains(t)
                && #[trigger] init[j].members.contains(t) implies i == j by {
            assert(previous[i].members.contains(t) && previous[j].members.contains(t));
        }
        lemma_kept(items, init);
        assert forall|t: usize| #[trigger] held(previous).contains(t) <==> held(init).contains(t)
            || last.members.contains(t) by {
            if held(previous).contains(t) {
                let i = choose|i: int|
                    0 <= i < previous.len() && (#[trigger] previous[i]).members.contains(t);
                if i < n {
                    assert(init[i].members.contains(t));
                }
            }
            if held(init).contains(t) {
                let i = choose|i: int|
                    0 <= i < init.len() && (#[trigger] init[i]).members.contains(t);
                assert(previous[i].members.contains(t));
            }
            if last.members.contains(t) {
                assert(previous[n].members.contains(t));
            }
        }
        assert forall|t: usize| held(init).contains(t) implies !last.members.contains(t) by {
            let i = choose|i: int| 0 <= i < init.len() && (#[trigger] init[i]).members.contains(t);
            if last.members.contains(t) {
                assert(previous[i].members.contains(t) && previous[n].members.contains(t));
            }
        }
        if inhabited(live) {
            let m = rest.len() as int;
            assert forall|t: usize| #[trigger] held(stay).contains(t) <==> held(rest).contains(t)
                || live.contains(t) by {
                if held(stay).contains(t) {
                    let i = choose|i: int|
                        0 <= i < stay.len() && (#[trigger] stay[i]).members.contains(t);
                    if i < m {
                        assert(rest[i].members.contains(t));
                    }
                }
                if held(rest).contains(t) {
                    let i = choose|i: int|
                        0 <= i < rest.len() && (#[trigger] rest[i]).members.contains(t);
                    assert(stay[i].members.contains(t));
                }
                if live.contains(t) {
                    assert(stay[m].members.contains(t));
                }
            }
            assert(held(stay) =~= held(rest).union(live));
            assert(held(rest).disjoint(live));
            lemma_splits_insert(crews(rest), held(rest), m, live);
            assert(crews(stay) =~= crews(rest).insert(m, live));
        } else {
            assert forall|t: usize| !live.contains(t) by {}
        }
        assert forall|t: usize| #[trigger] held(stay).contains(t) <==> held(previous).intersect(
            items.dom(),
        ).contains(t) by {
            assert(held(rest).contains(t) <==> held(init).intersect(items.dom()).contains(t));
            assert(held(previous).contains(t) <==> held(init).contains(t) || last.members.contains(
                t,
            ));
            assert(live.contains(t) <==> last.members.contains(t) && items.dom().contains(t));
        }
        assert(held(stay) =~= held(previous).intersect(items.dom()));
        lemma_arranged_apart(items, stay, held(stay));
    }
}

/// A plan has no job in two batches.
pub proof fn lemma_arranged_apart(items: Map<usize, Shape>, teams: Seq<Team>, whole: Set<usize>)
    requires
        arranges(items, teams, whole),
    ensures
        apart(teams),
        held(teams) == whole,
{
    assert forall|i: int, j: int, t: usize|
        0 <= i < teams.len() && 0 <= j < teams.len() && #[trigger] teams[i].members.contains(t)
            && #[trigger] teams[j].members.contains(t) implies i == j by {
        assert(crews(teams)[i].contains(t) && crews(teams)[j].contains(t));
    }
    assert forall|t: usize| held(teams).contains(t) <==> whole.contains(t) by {
        if held(teams).contains(t) {
            let i = choose|i: int|
                0 <= i < teams.len() && (#[trigger] teams[i]).members.contains(t);
            assert(crews(teams)[i].contains(t));
        }
        if whole.contains(t) {
            let i = choose|i: int|
                0 <= i < crews(teams).len() && #[trigger] crews(teams)[i].contains(t);
            assert(teams[i].members.contains(t));
        }
    }
    assert(held(teams) =~= whole);
}

/// Carrying a plan on gives every waiting job a place, with nobody late.
pub proof fn lemma_carried(
    rates: Rates,
    now: u64,
    items: Map<usize, Shape>,
    previous: Seq<Team>,
)
    requires
        ready(rates, now, items, previous),
    ensures
        arranges(items, carried(rates, now, items, previous), items.dom()),
        on_time(rates, carried(rates, now, items, previous), now),
        carried(rates, now, items, previous).len() <= items.dom().len(),
{
    let stay = kept(items, previous);
    let whole = held(stay);
    let others = items.dom().difference(whole);
    let incoming = patterns(items, others);
    lemma_kept(items, previous);
    assert(whole.subset_of(items.dom()));
    vstd::set_lib::lemma_set_subset_finite(items.dom(), whole);
    lemma_patterns_arrange(items, others);
    lemma_patterns_on_time(rates, items, others, now);
    lemma_splits_len(crews(stay), whole);
    assert(whole.union(others) =~= items.dom());
    vstd::set_lib::lemma_set_disjoint_lens(whole, others);
    lemma_inserted(rates, now, items, stay, whole, incoming, others);
}

/// The patterns of the waiting jobs can each run alone.
pub proof fn lemma_all(rates: Rates, now: u64, items: Map<usize, Shape>)
    requires
        items.dom().finite(),
        items.dom().len() <= usize::MAX,
        forall|t: usize| #[trigger] items.contains_key(t) ==> rates.fits(items[t], now),
    ensures
        arranges(items, patterns(items, items.dom()), items.dom()),
        held(patterns(items, items.dom())) == items.dom(),
        on_time(rates, patterns(items, items.dom()), now),
        patterns(items, items.dom()).len() <= items.dom().len(),
        inhabited(items.dom()) ==> patterns(items, items.dom()).len() > 0,
{
    lemma_patterns_arrange(items, items.dom());
    lemma_patterns_on_time(rates, items, items.dom(), now);
    lemma_arranged_apart(items, patterns(items, items.dom()), items.dom());
}

/// The competing plan is a feasible division too. It is the best there is, in batch
/// count and then seconds, unless bounded improvement stopped at one of its limits.
pub proof fn lemma_alternative(rates: Rates, now: u64, items: Map<usize, Shape>) -> (parts: Seq<
    Set<usize>,
>)
    requires
        items.dom().finite(),
        items.dom().len() <= usize::MAX,
        inhabited(items.dom()),
        forall|t: usize| #[trigger] items.contains_key(t) ==> rates.fits(items[t], now),
    ensures
        alternative(rates, now, patterns(items, items.dom())) == bundles(
            patterns(items, items.dom()),
            parts,
        ),
        splits(parts, upto(patterns(items, items.dom()).len())),
        feasible(rates, indexed(shapes(patterns(items, items.dom()))), parts, now),
        made_of(
            rates,
            now,
            patterns(items, items.dom()),
            greedy(rates, now, patterns(items, items.dom())),
        ),
{
    let all = patterns(items, items.dom());
    let s = shapes(all);
    lemma_all(rates, now, items);
    lemma_greedy(rates, now, all);
    let first = greedy_parts(rates, now, all);
    assert(greedy(rates, now, all) == bundles(all, first));
    assert forall|i: int| 0 <= i < s.len() implies rates.fits(#[trigger] s[i], now) by {
        assert(rates.fits(all[i].shape, now));
    }
    if together(rates, now, all) {
        let parts = seq![upto(all.len())];
        assert(upto(all.len()).contains(0));
        assert(inhabited(parts[0]));
        assert(splits(parts, upto(all.len()))) by {
            assert forall|t: usize| upto(all.len()).contains(t) implies exists|i: int|
                0 <= i < parts.len() && #[trigger] parts[i].contains(t) by {
                assert(parts[0].contains(t));
            }
        }
        parts
    } else if all.len() <= EXACT_PATTERN_LIMIT {
        lemma_best_found(rates, now, s);
        best_parts(rates, now, s)
    } else {
        lemma_improved(rates, now, all, items.dom(), first)
    }
}

} // verus!
