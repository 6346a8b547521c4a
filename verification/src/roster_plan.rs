//! The member lists of a plan: every waiting job stands on one list, once, and planning
//! again changes nothing.
use vstd::prelude::*;

use crate::cover::{best_parts, lemma_best_found};
use crate::frugal::{lemma_carried_left, lemma_kept_whole};
use crate::hunt::{Ground, PATTERN_LIMIT};
use crate::hunt_laws::{attains, index_sets, lemma_tidy_start, lemma_visit_proper};
use crate::listing::{ascending, lemma_ascending, lemma_upto, upto};
use crate::partition::{
    feasible, indexed, inhabited, lemma_splits_finite, lemma_splits_len, score, splits,
};
use crate::plan::{
    alternative, carried, field, greedy, held, hunted, improved, kept, made_of, opening, plan,
    prefers, ready, together, unbeatable, unquestioned, EXACT_PATTERN_LIMIT,
};
use crate::plan_best::lemma_plan;
use crate::plan_laws::{
    lemma_all, lemma_alternative, lemma_arranged_apart, lemma_carried, lemma_field, lemma_kept,
    lemma_opening,
};
use crate::policy::Policy;
use crate::roster::{
    alternative_lists, carried_lists, improved_lists, in_turn, inserted_lists, kept_lists, left_on,
    matched, of_kind, pattern_lists, plan_lists, roll_call, strung, strung_all,
};
use crate::roster_laws::{
    lemma_of_kind, lemma_of_kind_push, lemma_partition_roll, lemma_roll_once, lemma_still_once,
};
use crate::seating::{lemma_add_set, lemma_insertion};
use crate::shape::{Rates, Shape};
use crate::team::{
    alike, bundles, crew_of, crews, lemma_crew_empty, lemma_crew_insert, lemma_patterns,
    lemma_patterns_arrange, on_time, patterns, shapes, team_of, Team,
};

verus! {

// Patterns.

proof fn lemma_of_kind_once(items: Map<usize, Shape>, tokens: Seq<usize>, kind: Set<usize>)
    requires
        tokens.no_duplicates(),
    ensures
        of_kind(items, tokens, kind).no_duplicates(),
    decreases tokens.len(),
{
    if tokens.len() == 0 {
        reveal(Seq::filter);
    } else {
        let init = tokens.drop_last();
        let last = tokens.last();
        assert(tokens =~= init.push(last));
        lemma_of_kind_once(items, init, kind);
        lemma_of_kind_push(items, init, last, kind);
        lemma_of_kind(items, init, kind);
        let list = of_kind(items, init, kind);
        if list.contains(last) {
            assert(list.to_set().contains(last));
            assert(init.to_set().contains(last));
            let i = choose|i: int| 0 <= i < init.len() && init[i] == last;
            assert(tokens[i] == tokens[tokens.len() - 1]);
        }
    }
}

/// The lists of the patterns are of their members. Each listed job stands on one of them,
/// once.
pub proof fn lemma_pattern_roll(items: Map<usize, Shape>, tokens: Seq<usize>)
    requires
        tokens.no_duplicates(),
    ensures
        matched(patterns(items, tokens.to_set()), pattern_lists(items, tokens)),
        roll_call(pattern_lists(items, tokens)).no_duplicates(),
        roll_call(pattern_lists(items, tokens)).to_set() == tokens.to_set(),
{
    let whole = tokens.to_set();
    let all = patterns(items, whole);
    let lists = pattern_lists(items, tokens);
    lemma_patterns(items, whole);
    lemma_patterns_arrange(items, whole);
    assert forall|i: int| 0 <= i < lists.len() implies (#[trigger] lists[i]).to_set()
        == all[i].members && lists[i].no_duplicates() by {
        lemma_of_kind(items, tokens, all[i].shape.checks);
        lemma_of_kind_once(items, tokens, all[i].shape.checks);
        assert(all[i] == team_of(items, alike(items, whole, all[i].shape.checks)));
    }
    assert(index_sets(lists) =~= crews(all));
    lemma_roll_once(lists, whole);
}

// What is left of a plan.

proof fn lemma_left_set(items: Map<usize, Shape>, list: Seq<usize>)
    ensures
        left_on(items, list).to_set() == list.to_set().intersect(items.dom()),
        left_on(items, list).len() > 0 <==> inhabited(list.to_set().intersect(items.dom())),
        list.no_duplicates() ==> left_on(items, list).no_duplicates(),
    decreases list.len(),
{
    reveal(Seq::filter);
    let left = left_on(items, list);
    if list.len() == 0 {
        assert(left.to_set() =~= list.to_set().intersect(items.dom()));
    } else {
        let init = list.drop_last();
        let last = list.last();
        let rest = left_on(items, init);
        assert(list =~= init.push(last));
        lemma_left_set(items, init);
        init.lemma_push_to_set_commute(last);
        rest.lemma_push_to_set_commute(last);
        assert(left.to_set() =~= list.to_set().intersect(items.dom()));
        if list.no_duplicates() {
            assert forall|i: int, j: int| 0 <= i < init.len() && 0 <= j < init.len() && i
                != j implies init[i] != init[j] by {
                assert(list[i] != list[j]);
            }
            if rest.contains(last) {
                assert(rest.to_set().contains(last));
                assert(init.to_set().contains(last));
                let i = choose|i: int| 0 <= i < init.len() && init[i] == last;
                assert(list[i] == list[list.len() - 1]);
            }
        }
    }
    if left.len() > 0 {
        assert(left.to_set().contains(left[0]));
    }
    if inhabited(list.to_set().intersect(items.dom())) {
        let t = choose|t: usize| #[trigger] list.to_set().intersect(items.dom()).contains(t);
        assert(left.to_set().contains(t));
    }
}

/// The roll afterwards is the roll without those who are gone.
pub proof fn lemma_kept_roll(items: Map<usize, Shape>, lists: Seq<Seq<usize>>)
    ensures
        roll_call(kept_lists(items, lists)) == left_on(items, roll_call(lists)),
    decreases lists.len(),
{
    reveal(Seq::filter);
    if lists.len() > 0 {
        let init = lists.drop_last();
        let rest = kept_lists(items, init);
        let live = left_on(items, lists.last());
        lemma_kept_roll(items, init);
        Seq::filter_distributes_over_add(
            roll_call(init),
            lists.last(),
            |t: usize| items.contains_key(t),
        );
        if live.len() > 0 {
            assert(rest.push(live).drop_last() =~= rest);
        } else {
            assert(roll_call(rest) + live =~= roll_call(rest));
        }
    }
}

pub proof fn lemma_kept_matched(items: Map<usize, Shape>, previous: Seq<Team>, lists: Seq<Seq<usize>>)
    requires
        matched(previous, lists),
    ensures
        matched(kept(items, previous), kept_lists(items, lists)),
    decreases lists.len(),
{
    if lists.len() > 0 {
        let n = lists.len() - 1;
        assert(matched(previous.drop_last(), lists.drop_last())) by {
            assert forall|i: int| 0 <= i < n implies (
            #[trigger] lists.drop_last()[i]).to_set() == previous.drop_last()[i].members by {
                assert(lists[i].to_set() == previous[i].members);
            }
        }
        lemma_kept_matched(items, previous.drop_last(), lists.drop_last());
        assert(lists[n].to_set() == previous[n].members);
        lemma_left_set(items, lists[n]);
    }
}

// Batches of patterns.

proof fn lemma_strung_matched(all: Seq<Team>, lists: Seq<Seq<usize>>, which: Seq<usize>)
    requires
        matched(all, lists),
        forall|k: int| 0 <= k < which.len() ==> (#[trigger] which[k]) < all.len(),
    ensures
        strung(lists, which).to_set() == crew_of(all, which.to_set()),
    decreases which.len(),
{
    if which.len() == 0 {
        assert(which.to_set() =~= Set::<usize>::empty());
        lemma_crew_empty(all);
        assert(strung(lists, which).to_set() =~= Set::<usize>::empty());
    } else {
        let init = which.drop_last();
        let last = which.last();
        assert(which[which.len() - 1] == last);
        assert(which =~= init.push(last));
        lemma_strung_matched(all, lists, init);
        init.lemma_push_to_set_commute(last);
        lemma_crew_insert(all, init.to_set(), last);
        lemma_add_set(strung(lists, init), lists[last as int]);
        assert(lists[last as int].to_set() == all[last as int].members);
    }
}

/// Lists strung together by a division of the patterns are of the members of its batches,
/// and everyone on the roll stays on it, as often.
proof fn lemma_divided(all: Seq<Team>, lists: Seq<Seq<usize>>, which: Seq<Seq<usize>>)
    requires
        lists.len() == all.len() <= usize::MAX,
        splits(index_sets(which), upto(all.len())),
        forall|i: int| 0 <= i < which.len() ==> (#[trigger] which[i]).no_duplicates(),
    ensures
        matched(all, lists) ==> matched(bundles(all, index_sets(which)), strung_all(lists, which)),
        roll_call(strung_all(lists, which)).to_multiset() == roll_call(lists).to_multiset(),
{
    lemma_partition_roll(lists, which);
    if matched(all, lists) {
        let made = strung_all(lists, which);
        let sets = index_sets(which);
        assert forall|i: int| 0 <= i < made.len() implies (#[trigger] made[i]).to_set() == bundles(
            all,
            sets,
        )[i].members by {
            assert(sets[i] == which[i].to_set());
            assert forall|k: int| 0 <= k < which[i].len() implies (#[trigger] which[i][k])
                < all.len() by {
                assert(sets[i].contains(which[i][k]));
            }
            lemma_strung_matched(all, lists, which[i]);
        }
    }
}

/// The positions of a division, in turn.
pub proof fn lemma_in_turn(parts: Seq<Set<usize>>, n: nat)
    requires
        n <= usize::MAX,
        splits(parts, upto(n)),
    ensures
        index_sets(in_turn(parts)) == parts,
        forall|i: int| 0 <= i < parts.len() ==> (#[trigger] in_turn(parts)[i]).no_duplicates(),
{
    lemma_upto(n);
    lemma_splits_finite(parts, upto(n));
    assert forall|i: int| 0 <= i < parts.len() implies (
    #[trigger] in_turn(parts)[i]).no_duplicates() && in_turn(parts)[i].to_set() == parts[i] by {
        assert(in_turn(parts)[i] == ascending(parts[i]));
        lemma_ascending(parts[i]);
    }
    assert(index_sets(in_turn(parts)) =~= parts);
}

/// The best division of a few patterns loses no member and doubles none.
pub proof fn lemma_exact_roll(rates: Rates, now: u64, all: Seq<Team>, lists: Seq<Seq<usize>>)
    requires
        all.len() < 32,
        lists.len() == all.len(),
        on_time(rates, all, now),
    ensures
        ({
            let parts = best_parts(rates, now, shapes(all));
            let made = strung_all(lists, in_turn(parts));
            &&& roll_call(made).to_multiset() == roll_call(lists).to_multiset()
            &&& matched(all, lists) ==> matched(bundles(all, parts), made)
        }),
{
    let s = shapes(all);
    assert forall|i: int| 0 <= i < s.len() implies rates.fits(#[trigger] s[i], now) by {
        assert(rates.fits(all[i].shape, now));
    }
    lemma_best_found(rates, now, s);
    lemma_in_turn(best_parts(rates, now, s), all.len());
    lemma_divided(all, lists, in_turn(best_parts(rates, now, s)));
}

/// The bounded search ends with a division that names each pattern once.
pub proof fn lemma_hunted(rates: Rates, now: u64, all: Seq<Team>, initial: Seq<Team>)
    requires
        0 < all.len() <= usize::MAX,
        on_time(rates, all, now),
        made_of(rates, now, all, initial),
    ensures
        splits(index_sets(hunted(rates, now, all, initial).best), upto(all.len())),
        forall|i: int|
            0 <= i < hunted(rates, now, all, initial).best.len() ==> (#[trigger] hunted(
                rates,
                now,
                all,
                initial,
            ).best[i]).no_duplicates(),
{
    let s = shapes(all);
    let g = field(rates, now, s);
    let h = opening(rates, all, initial);
    let parts = choose|parts: Seq<Set<usize>>|
        initial == #[trigger] bundles(all, parts) && splits(parts, upto(all.len())) && feasible(
            rates,
            indexed(s),
            parts,
            now,
        );
    assert forall|i: int| 0 <= i < s.len() implies rates.fits(#[trigger] s[i], now) by {
        assert(rates.fits(all[i].shape, now));
    }
    lemma_field(rates, now, s);
    lemma_opening(rates, now, all, held(all), parts);
    lemma_tidy_start(g);
    lemma_visit_proper(g, h, 0, Seq::empty(), 0, Set::empty());
    let end = hunted(rates, now, all, initial);
    reveal(Ground::proper);
    assert(attains(g, index_sets(end.best), end.best_score));
}

/// Bounded improvement loses no member and doubles none, whether or not it stops at a
/// limit.
pub proof fn lemma_improved_roll(
    rates: Rates,
    now: u64,
    all: Seq<Team>,
    lists: Seq<Seq<usize>>,
    initial: Seq<Team>,
    initial_lists: Seq<Seq<usize>>,
)
    requires
        0 < all.len() <= usize::MAX,
        lists.len() == all.len(),
        on_time(rates, all, now),
        made_of(rates, now, all, initial),
        roll_call(initial_lists).to_multiset() == roll_call(lists).to_multiset(),
    ensures
        ({
            let made = improved_lists(rates, now, all, lists, initial, initial_lists);
            &&& roll_call(made).to_multiset() == roll_call(lists).to_multiset()
            &&& matched(all, lists) && matched(initial, initial_lists) ==> matched(
                improved(rates, now, all, initial),
                made,
            )
        }),
{
    if !unbeatable(rates, now, all, initial) && all.len() <= PATTERN_LIMIT {
        lemma_hunted(rates, now, all, initial);
        lemma_divided(all, lists, hunted(rates, now, all, initial).best);
    }
}

/// The competing plan lists every waiting job.
proof fn lemma_alternative_roll(
    rates: Rates,
    now: u64,
    items: Map<usize, Shape>,
    lists: Seq<Seq<usize>>,
)
    requires
        items.dom().finite(),
        items.dom().len() <= usize::MAX,
        inhabited(items.dom()),
        forall|t: usize| #[trigger] items.contains_key(t) ==> rates.fits(items[t], now),
        matched(patterns(items, items.dom()), lists),
    ensures
        ({
            let all = patterns(items, items.dom());
            let made = alternative_lists(rates, now, all, lists);
            &&& matched(alternative(rates, now, all), made)
            &&& roll_call(made).to_multiset() == roll_call(lists).to_multiset()
        }),
{
    let all = patterns(items, items.dom());
    lemma_all(rates, now, items);
    if together(rates, now, all) {
        let one = seq![upto(all.len())];
        assert(upto(all.len()).contains(0));
        assert(splits(one, upto(all.len()))) by {
            assert(inhabited(one[0]));
            assert forall|t: usize| upto(all.len()).contains(t) implies exists|i: int|
                0 <= i < one.len() && #[trigger] one[i].contains(t) by {
                assert(one[0].contains(t));
            }
        }
        lemma_in_turn(one, all.len());
        lemma_divided(all, lists, in_turn(one));
    } else if all.len() <= EXACT_PATTERN_LIMIT {
        lemma_exact_roll(rates, now, all, lists);
    } else {
        let start = greedy(rates, now, all);
        let none = Seq::<Team>::empty();
        let empty = Seq::<Seq<usize>>::empty();
        let first = inserted_lists(rates, now, none, empty, all, lists);
        let _ = lemma_alternative(rates, now, items);
        lemma_insertion(rates, now, none, empty, all, lists);
        assert(roll_call(first).to_multiset() =~= roll_call(lists).to_multiset()) by {
            broadcast use vstd::seq_lib::group_to_multiset_ensures;

            assert(roll_call(empty).to_multiset().len() == 0);
        }
        lemma_improved_roll(rates, now, all, lists, start, first);
    }
}

// Plans.

/// The carried plan lists every waiting job once.
proof fn lemma_carried_roll(
    rates: Rates,
    now: u64,
    items: Map<usize, Shape>,
    previous: Seq<Team>,
    lists: Seq<Seq<usize>>,
)
    requires
        ready(rates, now, items, previous),
        matched(previous, lists),
    ensures
        matched(
            carried(rates, now, items, previous),
            carried_lists(rates, now, items, previous, lists),
        ),
        roll_call(lists).no_duplicates() ==> roll_call(
            carried_lists(rates, now, items, previous, lists),
        ).no_duplicates(),
        roll_call(carried_lists(rates, now, items, previous, lists)).to_set() == items.dom(),
{
    let stay = kept(items, previous);
    let others = items.dom().difference(held(stay));
    let order = ascending(others);
    let a = kept_lists(items, lists);
    let b = pattern_lists(items, order);
    lemma_kept(items, previous);
    assert(others.subset_of(items.dom()));
    vstd::set_lib::lemma_set_subset_finite(items.dom(), others);
    assert(held(stay).subset_of(items.dom()));
    vstd::set_lib::lemma_set_subset_finite(items.dom(), held(stay));
    lemma_ascending(others);
    lemma_pattern_roll(items, order);
    lemma_kept_matched(items, previous, lists);
    lemma_patterns_arrange(items, others);
    lemma_splits_len(crews(stay), held(stay));
    vstd::set_lib::lemma_set_disjoint_lens(held(stay), others);
    assert(held(stay).union(others) =~= items.dom());
    lemma_insertion(rates, now, stay, a, patterns(items, others), b);
    lemma_kept_roll(items, lists);
    lemma_left_set(items, roll_call(lists));
    let x = roll_call(a);
    let y = roll_call(b);
    lemma_roll_held(stay, a);
    let both = x + y;
    vstd::seq_lib::lemma_multiset_commutative(x, y);
    lemma_still_once(both, roll_call(carried_lists(rates, now, items, previous, lists)));
    lemma_add_set(x, y);
    if roll_call(lists).no_duplicates() {
        assert forall|i: int, j: int|
            0 <= i < both.len() && 0 <= j < both.len() && i != j implies both[i] != both[j] by {
            if i < x.len() && j >= x.len() {
                assert(x.to_set().contains(x[i]) && y.to_set().contains(y[j - x.len()]));
            } else if j < x.len() && i >= x.len() {
                assert(x.to_set().contains(x[j]) && y.to_set().contains(y[i - x.len()]));
            }
        }
    }
}

/// The roll is of those whom the batches hold.
proof fn lemma_roll_held(teams: Seq<Team>, lists: Seq<Seq<usize>>)
    requires
        matched(teams, lists),
    ensures
        roll_call(lists).to_set() == held(teams),
    decreases lists.len(),
{
    if lists.len() == 0 {
        assert(roll_call(lists).to_set() =~= held(teams));
    } else {
        let n = lists.len() - 1;
        let init = teams.drop_last();
        assert(matched(init, lists.drop_last())) by {
            assert forall|i: int| 0 <= i < n implies (
            #[trigger] lists.drop_last()[i]).to_set() == init[i].members by {
                assert(lists[i].to_set() == teams[i].members);
            }
        }
        lemma_roll_held(init, lists.drop_last());
        lemma_add_set(roll_call(lists.drop_last()), lists[n]);
        assert(lists[n].to_set() == teams[n].members);
        assert(teams =~= init.push(teams[n]));
        crate::planner::lemma_held_push(init, teams[n]);
    }
}

/// A plan lists the members of its batches. Every waiting job stands on one list, and
/// nobody else does; each stands there once, if so it was before.
pub proof fn lemma_plan_roll(
    rates: Rates,
    now: u64,
    policy: Policy,
    items: Map<usize, Shape>,
    previous: Seq<Team>,
    lists: Seq<Seq<usize>>,
)
    requires
        ready(rates, now, items, previous),
        matched(previous, lists),
    ensures
        ({
            let made = plan_lists(rates, now, policy, items, previous, lists);
            &&& matched(plan(rates, now, policy, items, previous), made)
            &&& roll_call(made).to_set() == items.dom()
            &&& roll_call(lists).no_duplicates() ==> roll_call(made).no_duplicates()
        }),
{
    reveal(plan);
    reveal(plan_lists);
    let stable = carried(rates, now, items, previous);
    let all = patterns(items, items.dom());
    lemma_carried_roll(rates, now, items, previous, lists);
    if !unquestioned(rates, now, policy, all, stable) {
        lemma_carried(rates, now, items, previous);
        assert(inhabited(crews(stable)[0]));
        let t = choose|t: usize| #[trigger] crews(stable)[0].contains(t);
        assert(items.dom().contains(t));
        let order = ascending(items.dom());
        lemma_ascending(items.dom());
        lemma_pattern_roll(items, order);
        let from = pattern_lists(items, order);
        lemma_alternative_roll(rates, now, items, from);
        lemma_still_once(roll_call(from), roll_call(alternative_lists(rates, now, all, from)));
    }
}

/// Where nobody is new, a plan keeps its lists but for those who are gone, unless the
/// policy prefers the score of the new plan.
pub proof fn lemma_plan_keeps(
    rates: Rates,
    now: u64,
    policy: Policy,
    items: Map<usize, Shape>,
    previous: Seq<Team>,
    lists: Seq<Seq<usize>>,
)
    requires
        ready(rates, now, items, previous),
        matched(previous, lists),
        items.dom().subset_of(held(previous)),
    ensures
        ({
            let stay = kept(items, previous);
            let made = plan(rates, now, policy, items, previous);
            ||| made == stay && plan_lists(rates, now, policy, items, previous, lists)
                == kept_lists(items, lists)
            ||| prefers(policy, score(rates, shapes(made)), score(rates, shapes(stay)))
        }),
{
    reveal(plan);
    reveal(plan_lists);
    lemma_carried_left(rates, now, items, previous);
    let stay = kept(items, previous);
    lemma_kept(items, previous);
    let others = items.dom().difference(held(stay));
    assert(others =~= Set::<usize>::empty());
    lemma_ascending(others);
    lemma_patterns_arrange(items, others);
}

/// Planning again for the same jobs from the plan just made changes nothing.
pub proof fn lemma_plan_again(
    rates: Rates,
    now: u64,
    policy: Policy,
    items: Map<usize, Shape>,
    previous: Seq<Team>,
    lists: Seq<Seq<usize>>,
)
    requires
        ready(rates, now, items, previous),
        matched(previous, lists),
    ensures
        ({
            let made = plan(rates, now, policy, items, previous);
            let made_lists = plan_lists(rates, now, policy, items, previous, lists);
            &&& ready(rates, now, items, made)
            &&& plan(rates, now, policy, items, made) == made
            &&& plan_lists(rates, now, policy, items, made, made_lists) == made_lists
        }),
{
    let made = plan(rates, now, policy, items, previous);
    let made_lists = plan_lists(rates, now, policy, items, previous, lists);
    lemma_plan(rates, now, policy, items, previous);
    lemma_plan_roll(rates, now, policy, items, previous, lists);
    lemma_roll_held(made, made_lists);
    assert forall|i: int| 0 <= i < made.len() implies inhabited((#[trigger] made[i]).members)
        && made[i].members.subset_of(items.dom()) by {
        assert(crews(made)[i] == made[i].members);
        assert(inhabited(crews(made)[i]));
        assert forall|t: usize| made[i].members.contains(t) implies items.dom().contains(t) by {
            assert(crews(made)[i].contains(t));
        }
    }
    lemma_kept_whole(items, made);
    lemma_kept_lists_whole(items, made, made_lists);
    lemma_arranged_apart(items, made, items.dom());
    assert(ready(rates, now, items, made));
    lemma_carried_left(rates, now, items, made);
    lemma_plan_keeps(rates, now, policy, items, made, made_lists);
    lemma_no_better(rates, now, policy, items, previous, made);
}

/// Lists of waiting jobs stay whole.
proof fn lemma_kept_lists_whole(
    items: Map<usize, Shape>,
    teams: Seq<Team>,
    lists: Seq<Seq<usize>>,
)
    requires
        matched(teams, lists),
        forall|i: int|
            0 <= i < teams.len() ==> inhabited((#[trigger] teams[i]).members)
                && teams[i].members.subset_of(items.dom()),
    ensures
        kept_lists(items, lists) == lists,
    decreases lists.len(),
{
    if lists.len() > 0 {
        let n = lists.len() - 1;
        let init = teams.drop_last();
        assert forall|i: int| 0 <= i < n implies inhabited((#[trigger] init[i]).members)
            && init[i].members.subset_of(items.dom()) by {
            assert(init[i] == teams[i]);
        }
        assert forall|i: int| 0 <= i < n implies (#[trigger] lists.drop_last()[i]).to_set()
            == init[i].members by {
            assert(lists[i].to_set() == teams[i].members);
        }
        lemma_kept_lists_whole(items, init, lists.drop_last());
        assert(lists[n].to_set() == teams[n].members);
        lemma_left_whole(items, lists[n]);
        let t = choose|t: usize| #[trigger] teams[n].members.contains(t);
        assert(lists[n].to_set().contains(t));
        assert(lists =~= lists.drop_last().push(lists[n]));
    }
}

proof fn lemma_left_whole(items: Map<usize, Shape>, list: Seq<usize>)
    requires
        list.to_set().subset_of(items.dom()),
    ensures
        left_on(items, list) == list,
    decreases list.len(),
{
    reveal(Seq::filter);
    if list.len() > 0 {
        let init = list.drop_last();
        assert(list =~= init.push(list.last()));
        init.lemma_push_to_set_commute(list.last());
        assert(init.to_set().subset_of(items.dom()));
        assert(list.to_set().contains(list.last()));
        lemma_left_whole(items, init);
    }
}

/// No plan is preferred to the plan just made.
proof fn lemma_no_better(
    rates: Rates,
    now: u64,
    policy: Policy,
    items: Map<usize, Shape>,
    previous: Seq<Team>,
    made: Seq<Team>,
)
    requires
        ready(rates, now, items, previous),
        made == plan(rates, now, policy, items, previous),
        carried(rates, now, items, made) == made,
    ensures
        plan(rates, now, policy, items, made) == made,
        !prefers(
            policy,
            score(rates, shapes(plan(rates, now, policy, items, made))),
            score(rates, shapes(made)),
        ),
{
    reveal(plan);
}

} // verus!
