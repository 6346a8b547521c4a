//! Placing newcomers one by one: old members stay in front, and nobody is lost.
use vstd::prelude::*;

use crate::roster::{inserted_lists, matched, roll_call, seated_upto, strung};
use crate::roster_laws::{count_up, lemma_count_up, lemma_roll_all, lemma_strung_same};
use crate::shape::{join, lemma_work_monotone, Rates, Shape};
use crate::team::{
    best_fit, hosts, inserted, lemma_best_fit, lemma_urgency, placed_upto, shapes, urgency, Team,
};

verus! {

proof fn lemma_roll_push(lists: Seq<Seq<usize>>, list: Seq<usize>)
    ensures
        roll_call(lists.push(list)) == roll_call(lists) + list,
{
    assert(lists.push(list).drop_last() =~= lists);
}

/// A longer list adds its new members to the roll.
proof fn lemma_roll_grow(lists: Seq<Seq<usize>>, i: int, more: Seq<usize>)
    requires
        0 <= i < lists.len(),
    ensures
        roll_call(lists.update(i, lists[i] + more)).to_multiset() == roll_call(
            lists,
        ).to_multiset().add(more.to_multiset()),
    decreases lists.len(),
{
    let after = lists.update(i, lists[i] + more);
    let init = lists.drop_last();
    let last = lists.last();
    if i == lists.len() - 1 {
        assert(after.drop_last() =~= init);
        assert(roll_call(after) =~= roll_call(lists) + more);
        vstd::seq_lib::lemma_multiset_commutative(roll_call(lists), more);
    } else {
        lemma_roll_grow(init, i, more);
        assert(after.drop_last() =~= init.update(i, init[i] + more));
        vstd::seq_lib::lemma_multiset_commutative(roll_call(after.drop_last()), last);
        vstd::seq_lib::lemma_multiset_commutative(roll_call(init), last);
        assert(roll_call(after).to_multiset() =~= roll_call(lists).to_multiset().add(
            more.to_multiset(),
        ));
    }
}

/// After `k` placements: old lists are in front, and the newcomers are on the roll.
proof fn lemma_seated_upto(
    rates: Rates,
    now: u64,
    teams: Seq<Team>,
    lists: Seq<Seq<usize>>,
    incoming: Seq<Team>,
    more: Seq<Seq<usize>>,
    order: Seq<usize>,
    k: nat,
)
    requires
        lists.len() == teams.len(),
        more.len() == incoming.len(),
        teams.len() + incoming.len() <= usize::MAX,
        order.len() == incoming.len(),
        k <= order.len(),
        forall|i: int| 0 <= i < order.len() ==> (#[trigger] order[i]) < incoming.len(),
    ensures
        ({
            let made = placed_upto(rates, now, teams, incoming, order, k);
            let after = seated_upto(rates, now, teams, lists, incoming, more, order, k);
            &&& after.len() == made.len()
            &&& teams.len() <= made.len() <= teams.len() + k
            &&& forall|i: int|
                0 <= i < lists.len() ==> (#[trigger] lists[i]).is_prefix_of(after[i])
            &&& roll_call(after).to_multiset() == roll_call(lists).to_multiset().add(
                strung(more, order.take(k as int)).to_multiset(),
            )
            &&& matched(teams, lists) && matched(incoming, more) ==> matched(made, after)
        }),
    decreases k,
{
    let made = placed_upto(rates, now, teams, incoming, order, k);
    let after = seated_upto(rates, now, teams, lists, incoming, more, order, k);
    if k == 0 {
        assert(order.take(0) =~= Seq::<usize>::empty());
        assert(strung(more, order.take(0)).to_multiset() =~= vstd::multiset::Multiset::empty()) by {
            broadcast use vstd::seq_lib::group_to_multiset_ensures;

            assert(strung(more, order.take(0)).to_multiset().len() == 0);
        }
        assert(roll_call(after).to_multiset() =~= roll_call(lists).to_multiset().add(
            strung(more, order.take(0)).to_multiset(),
        ));
    } else {
        let before = placed_upto(rates, now, teams, incoming, order, (k - 1) as nat);
        let were = seated_upto(rates, now, teams, lists, incoming, more, order, (k - 1) as nat);
        lemma_seated_upto(rates, now, teams, lists, incoming, more, order, (k - 1) as nat);
        let j = order[k - 1] as int;
        let list = more[j];
        let host = best_fit(rates, now, shapes(before), incoming[j].shape);
        lemma_best_fit(rates, now, shapes(before), incoming[j].shape);
        assert(order.take(k as int).drop_last() =~= order.take(k - 1));
        let added = strung(more, order.take(k - 1));
        vstd::seq_lib::lemma_multiset_commutative(added, list);
        match host {
            Some(i) => {
                lemma_roll_grow(were, i as int, list);
                assert forall|x: int| 0 <= x < lists.len() implies (
                #[trigger] lists[x]).is_prefix_of(after[x]) by {
                    assert(lists[x].is_prefix_of(were[x]));
                    if x == i {
                        assert(lists[x] =~= after[x].subrange(0, lists[x].len() as int));
                    }
                }
                if matched(before, were) && matched(incoming, more) {
                    assert forall|x: int| 0 <= x < after.len() implies (
                    #[trigger] after[x]).to_set() == made[x].members by {
                        assert(were[x].to_set() == before[x].members);
                        assert(more[j].to_set() == incoming[j].members);
                        if x == i {
                            lemma_add_set(were[x], list);
                        }
                    }
                }
            },
            None => {
                lemma_roll_push(were, list);
                vstd::seq_lib::lemma_multiset_commutative(roll_call(were), list);
                if matched(before, were) && matched(incoming, more) {
                    assert forall|x: int| 0 <= x < after.len() implies (
                    #[trigger] after[x]).to_set() == made[x].members by {
                        assert(more[j].to_set() == incoming[j].members);
                        if x < were.len() {
                            assert(were[x].to_set() == before[x].members);
                        }
                    }
                }
            },
        }
        assert(roll_call(after).to_multiset() =~= roll_call(lists).to_multiset().add(
            strung(more, order.take(k as int)).to_multiset(),
        ));
    }
}

pub proof fn lemma_add_set(a: Seq<usize>, b: Seq<usize>)
    ensures
        (a + b).to_set() == a.to_set().union(b.to_set()),
{
    let both = a + b;
    assert forall|t: usize| #[trigger] both.to_set().contains(t) <==> a.to_set().union(
        b.to_set(),
    ).contains(t) by {
        if both.to_set().contains(t) {
            let i = choose|i: int| 0 <= i < both.len() && both[i] == t;
            if i < a.len() {
                assert(a[i] == t);
            } else {
                assert(b[i - a.len()] == t);
            }
        }
        if a.to_set().contains(t) {
            let i = choose|i: int| 0 <= i < a.len() && a[i] == t;
            assert(both[i] == t);
        }
        if b.to_set().contains(t) {
            let i = choose|i: int| 0 <= i < b.len() && b[i] == t;
            assert(both[a.len() + i] == t);
        }
    }
    assert(both.to_set() =~= a.to_set().union(b.to_set()));
}

/// Insertion keeps every member in place, and puts each newcomer behind. The roll
/// afterwards is made of both rolls.
pub proof fn lemma_insertion(
    rates: Rates,
    now: u64,
    teams: Seq<Team>,
    lists: Seq<Seq<usize>>,
    incoming: Seq<Team>,
    more: Seq<Seq<usize>>,
)
    requires
        lists.len() == teams.len(),
        more.len() == incoming.len(),
        teams.len() + incoming.len() <= usize::MAX,
    ensures
        ({
            let made = inserted(rates, now, teams, incoming);
            let after = inserted_lists(rates, now, teams, lists, incoming, more);
            &&& after.len() == made.len()
            &&& teams.len() <= made.len() <= teams.len() + incoming.len()
            &&& forall|i: int|
                0 <= i < lists.len() ==> (#[trigger] lists[i]).is_prefix_of(after[i])
            &&& roll_call(after).to_multiset() == roll_call(lists).to_multiset().add(
                roll_call(more).to_multiset(),
            )
            &&& matched(teams, lists) && matched(incoming, more) ==> matched(made, after)
        }),
{
    let order = urgency(rates, shapes(incoming));
    let n = incoming.len();
    assert(shapes(incoming).len() == n);
    lemma_urgency(rates, shapes(incoming));
    lemma_seated_upto(rates, now, teams, lists, incoming, more, order, n);
    assert(order.take(n as int) =~= order);
    lemma_roll_all(more);
    lemma_count_up(n);
    lemma_strung_same(more, order, count_up(n));
}

/// A batch that has no time for another demand has none when either grows.
proof fn lemma_still_full(rates: Rates, now: u64, a: Shape, b: Shape, more: Shape)
    requires
        !rates.fits(join(a, b), now),
    ensures
        !rates.fits(join(join(a, more), b), now),
        !rates.fits(join(a, join(b, more)), now),
{
    lemma_work_monotone(rates, join(a, b).checks, join(join(a, more), b).checks);
    lemma_work_monotone(rates, join(a, b).checks, join(a, join(b, more)).checks);
}

proof fn lemma_opened_upto(
    rates: Rates,
    now: u64,
    teams: Seq<Team>,
    incoming: Seq<Team>,
    order: Seq<usize>,
    k: nat,
)
    requires
        teams.len() + incoming.len() <= usize::MAX,
        order.len() == incoming.len(),
        k <= order.len(),
        forall|i: int| 0 <= i < order.len() ==> (#[trigger] order[i]) < incoming.len(),
    ensures
        ({
            let made = placed_upto(rates, now, teams, incoming, order, k);
            &&& teams.len() <= made.len() <= teams.len() + k
            &&& forall|i: int, j: int|
                0 <= i < j < made.len() && teams.len() <= j ==> !rates.fits(
                    join((#[trigger] made[i]).shape, (#[trigger] made[j]).shape),
                    now,
                )
        }),
    decreases k,
{
    if k > 0 {
        let before = placed_upto(rates, now, teams, incoming, order, (k - 1) as nat);
        let made = placed_upto(rates, now, teams, incoming, order, k);
        lemma_opened_upto(rates, now, teams, incoming, order, (k - 1) as nat);
        let job = incoming[order[k - 1] as int].shape;
        lemma_best_fit(rates, now, shapes(before), job);
        let host = best_fit(rates, now, shapes(before), job);
        assert forall|i: int, j: int|
            0 <= i < j < made.len() && teams.len() <= j implies !rates.fits(
            join((#[trigger] made[i]).shape, (#[trigger] made[j]).shape),
            now,
        ) by {
            match host {
                Some(h) => {
                    assert(!rates.fits(join(before[i].shape, before[j].shape), now));
                    lemma_still_full(rates, now, before[i].shape, before[j].shape, job);
                },
                None => {
                    if j < before.len() {
                        assert(!rates.fits(join(before[i].shape, before[j].shape), now));
                    } else {
                        assert(!hosts(rates, now, shapes(before), job).contains(i as usize));
                        assert(shapes(before)[i] == before[i].shape);
                    }
                },
            }
        }
    }
}

/// A batch is opened only when nothing fits: no batch has time for one opened after it.
pub proof fn lemma_opened(rates: Rates, now: u64, teams: Seq<Team>, incoming: Seq<Team>)
    requires
        teams.len() + incoming.len() <= usize::MAX,
    ensures
        forall|i: int, j: int|
            0 <= i < j < inserted(rates, now, teams, incoming).len() && teams.len() <= j
                ==> !rates.fits(
                join(
                    (#[trigger] inserted(rates, now, teams, incoming)[i]).shape,
                    (#[trigger] inserted(rates, now, teams, incoming)[j]).shape,
                ),
                now,
            ),
{
    assert(shapes(incoming).len() == incoming.len());
    lemma_urgency(rates, shapes(incoming));
    lemma_opened_upto(
        rates,
        now,
        teams,
        incoming,
        urgency(rates, shapes(incoming)),
        incoming.len(),
    );
}

} // verus!
