//! The order in which a plan lists the members of its batches.
use vstd::prelude::*;

use crate::bits::bits_lt;
use crate::cover::{best_parts, lemma_best_found};
use crate::hunt::PATTERN_LIMIT;
use crate::hunt_laws::index_sets;
use crate::listing::{ascending, lemma_ascending, lemma_upto, upto};
use crate::partition::{inhabited, lemma_splits_finite, lemma_splits_len, splits};
use crate::plan::{
    carried, greedy, held, hunted, kept, plan, ready, together, unbeatable, EXACT_PATTERN_LIMIT,
};
use crate::plan_best::lemma_effort;
use crate::plan_laws::{lemma_all, lemma_alternative, lemma_kept};
use crate::policy::Policy;
use crate::ranking::lemma_rearranged;
use crate::roster::{
    alternative_lists, carried_lists, in_turn, inserted_lists, kept_lists, left_on, matched,
    of_kind, pattern_lists, plan_lists, seated_upto, strung, strung_all,
};
use crate::roster_plan::{lemma_hunted, lemma_in_turn, lemma_kept_matched};
use crate::seating::lemma_insertion;
use crate::shape::{Rates, Shape};
use crate::team::{
    best_fit, crews, lemma_best_fit, lemma_patterns, lemma_patterns_arrange, lemma_urgency, on_time,
    patterns, placed_upto, shapes, urgency, Team,
};
use crate::thrift::lemma_search_limits;

verus! {

/// On the list, `t` stands before `u`.
pub open spec fn ahead_of(list: Seq<usize>, t: usize, u: usize) -> bool {
    exists|a: int, b: int|
        0 <= a < b < list.len() && #[trigger] list[a] == t && #[trigger] list[b] == u
}

/// On one of the lists, `t` stands before `u`.
pub open spec fn in_line(lists: Seq<Seq<usize>>, t: usize, u: usize) -> bool {
    exists|l: int| 0 <= l < lists.len() && ahead_of(#[trigger] lists[l], t, u)
}

proof fn lemma_ahead_both(x: Seq<usize>, y: Seq<usize>, t: usize, u: usize)
    ensures
        ahead_of(x, t, u) || ahead_of(y, t, u) ==> ahead_of(x + y, t, u),
{
    let both = x + y;
    if ahead_of(x, t, u) {
        let (a, b) = choose|a: int, b: int|
            0 <= a < b < x.len() && #[trigger] x[a] == t && #[trigger] x[b] == u;
        assert(both[a] == t && both[b] == u);
    } else if ahead_of(y, t, u) {
        let (a, b) = choose|a: int, b: int|
            0 <= a < b < y.len() && #[trigger] y[a] == t && #[trigger] y[b] == u;
        assert(both[x.len() + a] == t && both[x.len() + b] == u);
    }
}

/// Leaving others out does not change who stands before whom.
proof fn lemma_ahead_filter(list: Seq<usize>, keep: spec_fn(usize) -> bool, t: usize, u: usize)
    requires
        ahead_of(list, t, u),
        keep(t),
        keep(u),
    ensures
        ahead_of(list.filter(keep), t, u),
    decreases list.len(),
{
    reveal(Seq::filter);
    let (a, b) = choose|a: int, b: int|
        0 <= a < b < list.len() && #[trigger] list[a] == t && #[trigger] list[b] == u;
    let init = list.drop_last();
    let some = init.filter(keep);
    if b < init.len() {
        assert(init[a] == t && init[b] == u);
        lemma_ahead_filter(init, keep, t, u);
        lemma_ahead_both(some, seq![list.last()], t, u);
        assert(some.push(list.last()) =~= some + seq![list.last()]);
    } else {
        assert(init[a] == t);
        init.lemma_filter_contains(keep, a);
        let k = choose|k: int| 0 <= k < some.len() && some[k] == t;
        let all = list.filter(keep);
        assert(all[k] == t && all[some.len() as int] == u);
    }
}

/// Jobs with the same checks are listed in order with their pattern.
proof fn lemma_pattern_line(items: Map<usize, Shape>, tokens: Set<usize>, t: usize, u: usize) -> (i: int)
    requires
        tokens.finite(),
        tokens.contains(t),
        tokens.contains(u),
        t < u,
        items[t].checks == items[u].checks,
    ensures
        0 <= i < patterns(items, tokens).len(),
        pattern_lists(items, ascending(tokens)).len() == patterns(items, tokens).len(),
        ahead_of(pattern_lists(items, ascending(tokens))[i], t, u),
{
    let order = ascending(tokens);
    let all = patterns(items, tokens);
    lemma_ascending(tokens);
    lemma_patterns(items, tokens);
    let i = choose|i: int| 0 <= i < all.len() && (#[trigger] all[i]).shape.checks == items[t].checks;
    let kind = all[i].shape.checks;
    assert(order.to_set().contains(t) && order.to_set().contains(u));
    let a = choose|a: int| 0 <= a < order.len() && order[a] == t;
    let b = choose|b: int| 0 <= b < order.len() && order[b] == u;
    if b < a {
        assert(order[b] < order[a]);
    }
    assert(ahead_of(order, t, u));
    lemma_ahead_filter(order, |x: usize| items[x].checks == kind, t, u);
    assert(pattern_lists(items, order)[i] == of_kind(items, order, kind));
    i
}

/// A list that is strung in brings its order along.
proof fn lemma_strung_line(lists: Seq<Seq<usize>>, which: Seq<usize>, p: int, t: usize, u: usize)
    requires
        0 <= p < which.len(),
        ahead_of(lists[which[p] as int], t, u),
    ensures
        ahead_of(strung(lists, which), t, u),
    decreases which.len(),
{
    let init = which.drop_last();
    if p < init.len() {
        assert(init[p] == which[p]);
        lemma_strung_line(lists, init, p, t, u);
    }
    lemma_ahead_both(strung(lists, init), lists[which.last() as int], t, u);
}

/// The list of a pattern is strung into one of the lists of a division.
proof fn lemma_divided_line(
    lists: Seq<Seq<usize>>,
    which: Seq<Seq<usize>>,
    i: int,
    t: usize,
    u: usize,
)
    requires
        0 <= i < lists.len() <= usize::MAX,
        splits(index_sets(which), upto(lists.len())),
        ahead_of(lists[i], t, u),
    ensures
        in_line(strung_all(lists, which), t, u),
{
    let sets = index_sets(which);
    assert(upto(lists.len()).contains(i as usize));
    let l = choose|l: int| 0 <= l < sets.len() && #[trigger] sets[l].contains(i as usize);
    assert(sets[l] == which[l].to_set());
    let p = choose|p: int| 0 <= p < which[l].len() && which[l][p] == i as usize;
    lemma_strung_line(lists, which[l], p, t, u);
    assert(ahead_of(strung_all(lists, which)[l], t, u));
}

/// Placing newcomers keeps every order there was, and brings theirs along.
proof fn lemma_seated_line(
    rates: Rates,
    now: u64,
    teams: Seq<Team>,
    lists: Seq<Seq<usize>>,
    incoming: Seq<Team>,
    more: Seq<Seq<usize>>,
    order: Seq<usize>,
    k: nat,
    t: usize,
    u: usize,
)
    requires
        lists.len() == teams.len(),
        teams.len() + k <= usize::MAX,
    ensures
        ({
            let after = seated_upto(rates, now, teams, lists, incoming, more, order, k);
            &&& after.len() == placed_upto(rates, now, teams, incoming, order, k).len()
            &&& after.len() <= teams.len() + k
            &&& in_line(lists, t, u) ==> in_line(after, t, u)
            &&& forall|x: int|
                0 <= x < k && ahead_of(more[(#[trigger] order[x]) as int], t, u) ==> in_line(
                    after,
                    t,
                    u,
                )
        }),
    decreases k,
{
    if k > 0 {
        let before = seated_upto(rates, now, teams, lists, incoming, more, order, (k - 1) as nat);
        let after = seated_upto(rates, now, teams, lists, incoming, more, order, k);
        let made = placed_upto(rates, now, teams, incoming, order, (k - 1) as nat);
        let j = order[k - 1] as int;
        lemma_seated_line(
            rates,
            now,
            teams,
            lists,
            incoming,
            more,
            order,
            (k - 1) as nat,
            t,
            u,
        );
        lemma_best_fit(rates, now, shapes(made), incoming[j].shape);
        let host = best_fit(rates, now, shapes(made), incoming[j].shape);
        match host {
            Some(i) => {
                lemma_ahead_both(before[i as int], more[j], t, u);
                assert(after[i as int] == before[i as int] + more[j]);
            },
            None => {
                assert(after[before.len() as int] == more[j]);
            },
        }
        if in_line(before, t, u) {
            let l = choose|l: int| 0 <= l < before.len() && ahead_of(#[trigger] before[l], t, u);
            assert(ahead_of(after[l], t, u));
        }
    }
}

/// The competing plan lists jobs with the same checks in order.
proof fn lemma_alternative_line(
    rates: Rates,
    now: u64,
    items: Map<usize, Shape>,
    t: usize,
    u: usize,
)
    requires
        items.dom().finite(),
        items.dom().len() <= usize::MAX,
        forall|t: usize| #[trigger] items.contains_key(t) ==> rates.fits(items[t], now),
        items.contains_key(t),
        items.contains_key(u),
        t < u,
        items[t].checks == items[u].checks,
    ensures
        in_line(
            alternative_lists(
                rates,
                now,
                patterns(items, items.dom()),
                pattern_lists(items, ascending(items.dom())),
            ),
            t,
            u,
        ),
{
    let all = patterns(items, items.dom());
    let lists = pattern_lists(items, ascending(items.dom()));
    assert(items.dom().contains(t) && items.dom().contains(u));
    assert(inhabited(items.dom()));
    let i = lemma_pattern_line(items, items.dom(), t, u);
    lemma_all(rates, now, items);
    let _ = lemma_alternative(rates, now, items);
    if together(rates, now, all) {
        let one = seq![upto(all.len())];
        lemma_whole(all.len());
        lemma_in_turn(one, all.len());
        lemma_divided_line(lists, in_turn(one), i, t, u);
    } else if all.len() <= EXACT_PATTERN_LIMIT {
        let best = best_parts(rates, now, shapes(all));
        lemma_alternative_parts(rates, now, all);
        lemma_in_turn(best, all.len());
        lemma_divided_line(lists, in_turn(best), i, t, u);
    } else {
        let start = greedy(rates, now, all);
        if unbeatable(rates, now, all, start) || all.len() > PATTERN_LIMIT {
            lemma_inserted_line(rates, now, Seq::empty(), Seq::empty(), all, lists, i, t, u);
        } else {
            lemma_hunted(rates, now, all, start);
            lemma_divided_line(lists, hunted(rates, now, all, start).best, i, t, u);
        }
    }
}

/// One block of everything is a division.
proof fn lemma_whole(n: nat)
    requires
        0 < n <= usize::MAX,
    ensures
        splits(seq![upto(n)], upto(n)),
{
    let one = seq![upto(n)];
    assert(upto(n).contains(0));
    assert(inhabited(one[0]));
    assert forall|t: usize| upto(n).contains(t) implies exists|i: int|
        0 <= i < one.len() && #[trigger] one[i].contains(t) by {
        assert(one[0].contains(t));
    }
}

/// Inserting brings the order of each incoming list along.
proof fn lemma_inserted_line(
    rates: Rates,
    now: u64,
    teams: Seq<Team>,
    lists: Seq<Seq<usize>>,
    incoming: Seq<Team>,
    more: Seq<Seq<usize>>,
    i: int,
    t: usize,
    u: usize,
)
    requires
        lists.len() == teams.len(),
        more.len() == incoming.len(),
        teams.len() + incoming.len() <= usize::MAX,
        0 <= i < incoming.len(),
        ahead_of(more[i], t, u),
    ensures
        in_line(inserted_lists(rates, now, teams, lists, incoming, more), t, u),
{
    let order = urgency(rates, shapes(incoming));
    let n = incoming.len();
    assert(shapes(incoming).len() == n);
    lemma_urgency(rates, shapes(incoming));
    assert(upto(n).contains(i as usize));
    assert(order.to_set().contains(i as usize));
    let x = choose|x: int| 0 <= x < order.len() && order[x] == i as usize;
    lemma_seated_line(rates, now, teams, lists, incoming, more, order, n, t, u);
    assert(ahead_of(more[order[x] as int], t, u));
}

/// A rearranged plan lists jobs with the same checks on one list, in the order of their
/// tokens.
pub proof fn lemma_equals_in_line(
    rates: Rates,
    now: u64,
    policy: Policy,
    items: Map<usize, Shape>,
    previous: Seq<Team>,
    lists: Seq<Seq<usize>>,
    t: usize,
    u: usize,
)
    requires
        ready(rates, now, items, previous),
        plan(rates, now, policy, items, previous) != carried(rates, now, items, previous),
        items.contains_key(t),
        items.contains_key(u),
        t < u,
        items[t].checks == items[u].checks,
    ensures
        in_line(plan_lists(rates, now, policy, items, previous, lists), t, u),
{
    lemma_alternative_line(rates, now, items, t, u);
    reveal(plan);
    reveal(plan_lists);
}

/// The leftovers of a list.
proof fn lemma_kept_line(
    items: Map<usize, Shape>,
    lists: Seq<Seq<usize>>,
    i: int,
    t: usize,
    u: usize,
)
    requires
        0 <= i < lists.len(),
        ahead_of(lists[i], t, u),
        items.contains_key(t),
        items.contains_key(u),
    ensures
        in_line(kept_lists(items, lists), t, u),
    decreases lists.len(),
{
    let init = lists.drop_last();
    let rest = kept_lists(items, init);
    let made = kept_lists(items, lists);
    if i < init.len() {
        assert(init[i] == lists[i]);
        lemma_kept_line(items, init, i, t, u);
        let l = choose|l: int| 0 <= l < rest.len() && ahead_of(#[trigger] rest[l], t, u);
        assert(made[l] == rest[l]);
    } else {
        lemma_ahead_filter(lists.last(), |x: usize| items.contains_key(x), t, u);
        let live = left_on(items, lists.last());
        assert(ahead_of(live, t, u));
        assert(made[rest.len() as int] == live);
    }
}

/// A plan that is carried on keeps the order on its lists. Newcomers with the same checks
/// are on one list, in the order of their tokens.
pub proof fn lemma_carried_in_line(
    rates: Rates,
    now: u64,
    items: Map<usize, Shape>,
    previous: Seq<Team>,
    lists: Seq<Seq<usize>>,
    t: usize,
    u: usize,
)
    requires
        ready(rates, now, items, previous),
        matched(previous, lists),
        items.contains_key(t),
        items.contains_key(u),
    ensures
        ({
            let made = carried_lists(rates, now, items, previous, lists);
            &&& in_line(lists, t, u) ==> in_line(made, t, u)
            &&& t < u && items[t].checks == items[u].checks && !held(previous).contains(t)
                && !held(previous).contains(u) ==> in_line(made, t, u)
        }),
{
    let stay = kept(items, previous);
    let fresh = items.dom().difference(held(stay));
    let incoming = patterns(items, fresh);
    let more = pattern_lists(items, ascending(fresh));
    let old = kept_lists(items, lists);
    lemma_carried_room(rates, now, items, previous, lists);
    let order = urgency(rates, shapes(incoming));
    lemma_seated_line(rates, now, stay, old, incoming, more, order, incoming.len(), t, u);
    if in_line(lists, t, u) {
        let i = choose|i: int| 0 <= i < lists.len() && ahead_of(#[trigger] lists[i], t, u);
        lemma_kept_line(items, lists, i, t, u);
    }
    if t < u && items[t].checks == items[u].checks && !held(previous).contains(t) && !held(
        previous,
    ).contains(u) {
        assert(fresh.contains(t) && fresh.contains(u));
        let i = lemma_pattern_line(items, fresh, t, u);
        lemma_inserted_line(rates, now, stay, old, incoming, more, i, t, u);
    }
}

/// The leftovers of a list are one of the lists that are left.
proof fn lemma_left_there(items: Map<usize, Shape>, lists: Seq<Seq<usize>>, i: int)
    requires
        0 <= i < lists.len(),
        left_on(items, lists[i]).len() > 0,
    ensures
        kept_lists(items, lists).contains(left_on(items, lists[i])),
    decreases lists.len(),
{
    let init = lists.drop_last();
    let rest = kept_lists(items, init);
    let made = kept_lists(items, lists);
    let live = left_on(items, lists[i]);
    if i < init.len() {
        assert(init[i] == lists[i]);
        lemma_left_there(items, init, i);
        let l = choose|l: int| 0 <= l < rest.len() && rest[l] == live;
        assert(made[l] == live);
    } else {
        assert(made[rest.len() as int] == live);
    }
}

/// On a plan that is carried on, newcomers stand behind: what is left of a list is the front
/// of one of the lists.
pub proof fn lemma_newcomers_behind(
    rates: Rates,
    now: u64,
    items: Map<usize, Shape>,
    previous: Seq<Team>,
    lists: Seq<Seq<usize>>,
    i: int,
)
    requires
        ready(rates, now, items, previous),
        matched(previous, lists),
        0 <= i < lists.len(),
        lists[i].filter(|t: usize| items.contains_key(t)).len() > 0,
    ensures
        exists|l: int|
            0 <= l < carried_lists(rates, now, items, previous, lists).len() && lists[i].filter(
                |t: usize| items.contains_key(t),
            ).is_prefix_of(#[trigger] carried_lists(rates, now, items, previous, lists)[l]),
{
    let made = carried_lists(rates, now, items, previous, lists);
    let old = kept_lists(items, lists);
    let live = left_on(items, lists[i]);
    lemma_carried_room(rates, now, items, previous, lists);
    lemma_left_there(items, lists, i);
    let l = choose|l: int| 0 <= l < old.len() && old[l] == live;
    assert(old[l].is_prefix_of(made[l]));
}

/// What carrying on a plan does to its lists.
proof fn lemma_carried_room(
    rates: Rates,
    now: u64,
    items: Map<usize, Shape>,
    previous: Seq<Team>,
    lists: Seq<Seq<usize>>,
)
    requires
        ready(rates, now, items, previous),
        matched(previous, lists),
    ensures
        ({
            let stay = kept(items, previous);
            let fresh = items.dom().difference(held(stay));
            let made = carried_lists(rates, now, items, previous, lists);
            let old = kept_lists(items, lists);
            &&& fresh.finite()
            &&& held(stay) == held(previous).intersect(items.dom())
            &&& old.len() == stay.len()
            &&& pattern_lists(items, ascending(fresh)).len() == patterns(items, fresh).len()
            &&& stay.len() + patterns(items, fresh).len() <= usize::MAX
            &&& old.len() <= made.len()
            &&& forall|l: int| 0 <= l < old.len() ==> (#[trigger] old[l]).is_prefix_of(made[l])
        }),
{
    let stay = kept(items, previous);
    let fresh = items.dom().difference(held(stay));
    let incoming = patterns(items, fresh);
    let more = pattern_lists(items, ascending(fresh));
    let old = kept_lists(items, lists);
    lemma_kept(items, previous);
    assert(held(stay).subset_of(items.dom()));
    vstd::set_lib::lemma_set_subset_finite(items.dom(), held(stay));
    lemma_patterns_arrange(items, fresh);
    lemma_splits_len(crews(stay), held(stay));
    lemma_splits_len(crews(incoming), fresh);
    assert(held(stay).union(fresh) =~= items.dom());
    vstd::set_lib::lemma_set_disjoint_lens(held(stay), fresh);
    lemma_kept_matched(items, previous, lists);
    lemma_ascending(fresh);
    lemma_insertion(rates, now, stay, old, incoming, more);
}

/// The list is in numeral order of the checks, and of equals in order of tokens.
pub open spec fn in_numeral_order(items: Map<usize, Shape>, list: Seq<usize>) -> bool {
    forall|a: int, b: int|
        0 <= a < b < list.len() ==> bits_lt(
            items[#[trigger] list[a]].checks,
            items[#[trigger] list[b]].checks,
        ) || items[list[a]].checks == items[list[b]].checks && list[a] < list[b]
}

/// A pattern's list, in order.
proof fn lemma_pattern_sorted(items: Map<usize, Shape>, tokens: Set<usize>, i: int)
    requires
        tokens.finite(),
        0 <= i < patterns(items, tokens).len(),
    ensures
        ({
            let list = pattern_lists(items, ascending(tokens))[i];
            &&& forall|a: int|
                0 <= a < list.len() ==> items[#[trigger] list[a]].checks == patterns(
                    items,
                    tokens,
                )[i].shape.checks
            &&& forall|a: int, b: int|
                0 <= a < b < list.len() ==> #[trigger] list[a] < #[trigger] list[b]
        }),
{
    let order = ascending(tokens);
    let kind = patterns(items, tokens)[i].shape.checks;
    lemma_ascending(tokens);
    assert(pattern_lists(items, order)[i] == of_kind(items, order, kind));
    lemma_filter_sorted(order, |t: usize| items[t].checks == kind);
}

/// Leaving others out of an increasing list leaves an increasing list of those who stay.
proof fn lemma_filter_sorted(list: Seq<usize>, keep: spec_fn(usize) -> bool)
    requires
        forall|a: int, b: int| 0 <= a < b < list.len() ==> #[trigger] list[a] < #[trigger] list[b],
    ensures
        forall|a: int|
            0 <= a < list.filter(keep).len() ==> keep(#[trigger] list.filter(keep)[a])
                && list.contains(list.filter(keep)[a]),
        forall|a: int, b: int|
            0 <= a < b < list.filter(keep).len() ==> #[trigger] list.filter(keep)[a]
                < #[trigger] list.filter(keep)[b],
    decreases list.len(),
{
    reveal(Seq::filter);
    if list.len() > 0 {
        let init = list.drop_last();
        let n = list.len() - 1;
        let some = list.filter(keep);
        let fewer = init.filter(keep);
        assert forall|a: int, b: int| 0 <= a < b < init.len() implies #[trigger] init[a]
            < #[trigger] init[b] by {
            assert(list[a] < list[b]);
        }
        lemma_filter_sorted(init, keep);
        assert forall|a: int| 0 <= a < fewer.len() implies keep(#[trigger] some[a])
            && list.contains(some[a]) && some[a] < list[n] by {
            assert(some[a] == fewer[a]);
            let k = choose|k: int| 0 <= k < init.len() && init[k] == fewer[a];
            assert(list[k] == some[a]);
            assert(list[k] < list[n]);
        }
        assert forall|a: int, b: int| 0 <= a < b < some.len() implies #[trigger] some[a]
            < #[trigger] some[b] by {
            assert(some[a] == fewer[a]);
            if b < fewer.len() {
                assert(some[b] == fewer[b]);
            }
        }
        if some.len() > fewer.len() {
            assert(some[fewer.len() as int] == list[n]);
        }
    }
}

/// Patterns strung together in increasing order are in numeral order.
proof fn lemma_strung_sorted(items: Map<usize, Shape>, tokens: Set<usize>, which: Seq<usize>)
    requires
        tokens.finite(),
        forall|p: int|
            0 <= p < which.len() ==> (#[trigger] which[p]) < patterns(items, tokens).len(),
        forall|p: int, q: int|
            0 <= p < q < which.len() ==> #[trigger] which[p] < #[trigger] which[q],
    ensures
        in_numeral_order(items, strung(pattern_lists(items, ascending(tokens)), which)),
        forall|a: int|
            0 <= a < strung(pattern_lists(items, ascending(tokens)), which).len() ==> exists|p: int|
                0 <= p < which.len() && items[#[trigger] strung(
                    pattern_lists(items, ascending(tokens)),
                    which,
                )[a]].checks == patterns(items, tokens)[(#[trigger] which[p]) as int].shape.checks,
    decreases which.len(),
{
    let all = patterns(items, tokens);
    let lists = pattern_lists(items, ascending(tokens));
    let made = strung(lists, which);
    if which.len() > 0 {
        let init = which.drop_last();
        let n = which.len() - 1;
        let front = strung(lists, init);
        let back = lists[which[n] as int];
        assert forall|p: int, q: int| 0 <= p < q < init.len() implies #[trigger] init[p]
            < #[trigger] init[q] by {
            assert(which[p] < which[q]);
        }
        assert forall|p: int| 0 <= p < init.len() implies (#[trigger] init[p]) < all.len() by {
            assert(which[p] < all.len());
        }
        lemma_strung_sorted(items, tokens, init);
        lemma_pattern_sorted(items, tokens, which[n] as int);
        lemma_patterns(items, tokens);
        assert forall|a: int| 0 <= a < made.len() implies exists|p: int|
            0 <= p < which.len() && items[#[trigger] made[a]].checks == all[(
            #[trigger] which[p]) as int].shape.checks by {
            if a < front.len() {
                assert(made[a] == front[a]);
                let p = choose|p: int|
                    0 <= p < init.len() && items[front[a]].checks == all[(
                    #[trigger] init[p]) as int].shape.checks;
                assert(which[p] == init[p]);
            } else {
                assert(made[a] == back[a - front.len()]);
                assert(items[made[a]].checks == all[which[n] as int].shape.checks);
            }
        }
        assert forall|a: int, b: int| 0 <= a < b < made.len() implies bits_lt(
            items[#[trigger] made[a]].checks,
            items[#[trigger] made[b]].checks,
        ) || items[made[a]].checks == items[made[b]].checks && made[a] < made[b] by {
            if b < front.len() {
                assert(made[a] == front[a] && made[b] == front[b]);
            } else if a < front.len() {
                assert(made[a] == front[a]);
                assert(made[b] == back[b - front.len()]);
                let p = choose|p: int|
                    0 <= p < init.len() && items[front[a]].checks == all[(
                    #[trigger] init[p]) as int].shape.checks;
                assert(init[p] == which[p]);
                assert(which[p] < which[n]);
                assert(bits_lt(all[which[p] as int].shape.checks, all[which[n] as int].shape.checks));
            } else {
                assert(made[a] == back[a - front.len()] && made[b] == back[b - front.len()]);
            }
        }
    }
}

/// A rearranged plan of at most 12 distinct check sets lists the members of each batch in
/// numeral order of their checks, and of equals in order of tokens.
pub proof fn lemma_few_in_numeral_order(
    rates: Rates,
    now: u64,
    policy: Policy,
    items: Map<usize, Shape>,
    previous: Seq<Team>,
    lists: Seq<Seq<usize>>,
    l: int,
)
    requires
        ready(rates, now, items, previous),
        plan(rates, now, policy, items, previous) != carried(rates, now, items, previous),
        items.dom().map(|t: usize| items[t].checks).len() <= 12,
        0 <= l < plan_lists(rates, now, policy, items, previous, lists).len(),
    ensures
        in_numeral_order(items, plan_lists(rates, now, policy, items, previous, lists)[l]),
{
    let all = patterns(items, items.dom());
    let lines = pattern_lists(items, ascending(items.dom()));
    let made = alternative_lists(rates, now, all, lines);
    assert(plan_lists(rates, now, policy, items, previous, lists) == made) by {
        reveal(plan);
        reveal(plan_lists);
    }
    lemma_search_limits(rates, now, policy, items, previous);
    lemma_effort(rates, now, policy, items, previous);
    lemma_all(rates, now, items);
    lemma_rearranged(rates, now, policy, items, previous);
    lemma_alternative_parts(rates, now, all);
    let parts = if together(rates, now, all) {
        seq![upto(all.len())]
    } else {
        best_parts(rates, now, shapes(all))
    };
    let which = in_turn(parts)[l];
    lemma_upto(all.len());
    lemma_splits_finite(parts, upto(all.len()));
    lemma_ascending(parts[l]);
    assert forall|p: int| 0 <= p < which.len() implies (#[trigger] which[p]) < all.len() by {
        assert(which.to_set().contains(which[p]));
        assert(parts[l].contains(which[p]));
    }
    lemma_strung_sorted(items, items.dom(), which);
    assert(made[l] == strung(lines, which));
}

/// The division that a rearranged plan of few patterns is made of.
proof fn lemma_alternative_parts(rates: Rates, now: u64, all: Seq<Team>)
    requires
        0 < all.len() < 32,
        on_time(rates, all, now),
    ensures
        splits(seq![upto(all.len())], upto(all.len())),
        splits(best_parts(rates, now, shapes(all)), upto(all.len())),
{
    lemma_whole(all.len());
    assert forall|x: int| 0 <= x < shapes(all).len() implies rates.fits(
        #[trigger] shapes(all)[x],
        now,
    ) by {
        assert(rates.fits(all[x].shape, now));
    }
    lemma_best_found(rates, now, shapes(all));
}

} // verus!
