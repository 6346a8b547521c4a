//! What stays of a plan that is carried on: who shared a batch still does, and batches that
//! were apart stay apart and in order.
use vstd::prelude::*;

use crate::listing::{lemma_upto, upto};
use crate::partition::{inhabited, lemma_splits_len};
use crate::placing::{goes_before, lemma_one_by_one, takes_in};
use crate::plan::{carried, held, kept, ready};
use crate::plan_laws::lemma_kept;
use crate::shape::{gather, lemma_gather_urgent, Rates, Shape};
use crate::team::{
    alike, crews, lemma_best_fit, lemma_patterns, lemma_patterns_arrange, lemma_patterns_distinct,
    patterns, placed_upto, shapes, team_of, urgency, Team,
};

verus! {

/// Which batches of a plan are left.
proof fn lemma_sources(items: Map<usize, Shape>, previous: Seq<Team>) -> (from: Seq<int>)
    ensures
        ({
            let stay = kept(items, previous);
            &&& from.len() == stay.len()
            &&& forall|x: int|
                0 <= x < from.len() ==> 0 <= #[trigger] from[x] < previous.len() && stay[x].members
                    == previous[from[x]].members.intersect(items.dom())
            &&& forall|x: int, y: int|
                0 <= x < y < from.len() ==> #[trigger] from[x] < #[trigger] from[y]
            &&& forall|i: int|
                0 <= i < previous.len() && inhabited(
                    (#[trigger] previous[i]).members.intersect(items.dom()),
                ) ==> from.contains(i)
        }),
    decreases previous.len(),
{
    let stay = kept(items, previous);
    if previous.len() == 0 {
        Seq::empty()
    } else {
        let init = previous.drop_last();
        let n = previous.len() - 1;
        let before = lemma_sources(items, init);
        let from = if inhabited(previous.last().members.intersect(items.dom())) {
            before.push(n)
        } else {
            before
        };
        assert forall|x: int| 0 <= x < from.len() implies 0 <= #[trigger] from[x] < previous.len()
            && stay[x].members == previous[from[x]].members.intersect(items.dom()) by {
            if x < before.len() {
                assert(from[x] == before[x]);
                assert(init[before[x]] == previous[before[x]]);
            }
        }
        assert forall|x: int, y: int| 0 <= x < y < from.len() implies #[trigger] from[x]
            < #[trigger] from[y] by {
            assert(from[x] == before[x]);
            if y < before.len() {
                assert(from[y] == before[y]);
            } else {
                assert(before[x] < init.len());
            }
        }
        assert forall|i: int|
            0 <= i < previous.len() && inhabited(
                (#[trigger] previous[i]).members.intersect(items.dom()),
            ) implies from.contains(i) by {
            if i < n {
                assert(init[i] == previous[i]);
                assert(before.contains(i));
                let x = choose|x: int| 0 <= x < before.len() && before[x] == i;
                assert(from[x] == i);
            } else {
                assert(from[from.len() - 1] == i);
            }
        }
        from
    }
}

/// Placing newcomers takes nobody out of a batch.
proof fn lemma_grows(
    rates: Rates,
    now: u64,
    teams: Seq<Team>,
    incoming: Seq<Team>,
    order: Seq<usize>,
    k: nat,
)
    requires
        teams.len() + k <= usize::MAX,
    ensures
        ({
            let made = placed_upto(rates, now, teams, incoming, order, k);
            &&& teams.len() <= made.len() <= teams.len() + k
            &&& forall|x: int|
                0 <= x < teams.len() ==> (#[trigger] teams[x]).members.subset_of(made[x].members)
        }),
    decreases k,
{
    if k > 0 {
        let before = placed_upto(rates, now, teams, incoming, order, (k - 1) as nat);
        let made = placed_upto(rates, now, teams, incoming, order, k);
        lemma_grows(rates, now, teams, incoming, order, (k - 1) as nat);
        lemma_best_fit(rates, now, shapes(before), incoming[order[k - 1] as int].shape);
        assert forall|x: int| 0 <= x < teams.len() implies (
        #[trigger] teams[x]).members.subset_of(made[x].members) by {
            assert(teams[x].members.subset_of(before[x].members));
        }
    }
}

/// Both jobs wait in the batch at `i`.
pub open spec fn share(teams: Seq<Team>, i: int, t: usize, u: usize) -> bool {
    0 <= i < teams.len() && teams[i].members.contains(t) && teams[i].members.contains(u)
}

/// A plan that is carried on keeps together who was planned together and still waits. Jobs
/// of different batches are not put together, and the batches keep their order.
pub proof fn lemma_carried_on(
    rates: Rates,
    now: u64,
    items: Map<usize, Shape>,
    previous: Seq<Team>,
    i: int,
    k: int,
    t: usize,
    u: usize,
)
    requires
        ready(rates, now, items, previous),
        0 <= i <= k < previous.len(),
        previous[i].members.contains(t),
        previous[k].members.contains(u),
        items.contains_key(t),
        items.contains_key(u),
    ensures
        ({
            let made = carried(rates, now, items, previous);
            &&& i == k ==> exists|x: int| #[trigger] share(made, x, t, u)
            &&& i < k ==> exists|x: int, y: int|
                0 <= x < y < made.len() && (#[trigger] made[x]).members.contains(t) && (
                #[trigger] made[y]).members.contains(u)
        }),
{
    let stay = kept(items, previous);
    let fresh = items.dom().difference(held(stay));
    let incoming = patterns(items, fresh);
    let made = carried(rates, now, items, previous);
    let order = urgency(rates, shapes(incoming));
    let from = lemma_sources(items, previous);
    lemma_kept(items, previous);
    assert(held(stay).subset_of(items.dom()));
    vstd::set_lib::lemma_set_subset_finite(items.dom(), held(stay));
    lemma_patterns_arrange(items, fresh);
    lemma_splits_len(crews(stay), held(stay));
    lemma_splits_len(crews(incoming), fresh);
    assert(held(stay).union(fresh) =~= items.dom());
    vstd::set_lib::lemma_set_disjoint_lens(held(stay), fresh);
    lemma_grows(rates, now, stay, incoming, order, incoming.len());
    assert(previous[i].members.intersect(items.dom()).contains(t));
    assert(previous[k].members.intersect(items.dom()).contains(u));
    assert(inhabited(previous[i].members.intersect(items.dom())));
    assert(inhabited(previous[k].members.intersect(items.dom())));
    let x = choose|x: int| 0 <= x < from.len() && from[x] == i;
    let y = choose|y: int| 0 <= y < from.len() && from[y] == k;
    assert(stay[x].members.contains(t) && stay[y].members.contains(u));
    assert(stay[x].members.subset_of(made[x].members));
    assert(stay[y].members.subset_of(made[y].members));
    if i == k {
        assert(x == y);
        assert(share(made, x, t, u));
    } else if y <= x {
        assert(from[y] <= from[x]);
    } else {
        assert(made[x].members.contains(t) && made[y].members.contains(u));
    }
}

/// Which newcomers come together: all that list the same checks, as urgent as the most
/// urgent of them.
pub open spec fn comes_together(items: Map<usize, Shape>, fresh: Set<usize>, guest: Team) -> bool {
    &&& exists|t: usize| #[trigger] guest.members.contains(t) && items[t] == guest.shape
    &&& forall|t: usize| #[trigger]
        guest.members.contains(t) <==> fresh.contains(t) && items[t].checks == guest.shape.checks
    &&& forall|t: usize| #[trigger]
        guest.members.contains(t) ==> guest.shape.deadline <= items[t].deadline
}

/// The jobs that wait and are in no batch of the plan.
pub open spec fn newcomers(items: Map<usize, Shape>, previous: Seq<Team>) -> Set<usize> {
    Set::new(
        |t: usize|
            items.contains_key(t) && forall|i: int|
                0 <= i < previous.len() ==> !(#[trigger] previous[i]).members.contains(t),
    )
}

/// How a plan is carried on. Its batches lose the members that wait no longer, and vanish
/// if none is left. Then the newcomers find their places, those with the same checks
/// together, one group after the other: the one that has to start soonest first.
pub proof fn lemma_carried_steps(
    rates: Rates,
    now: u64,
    items: Map<usize, Shape>,
    previous: Seq<Team>,
) -> (r: (Seq<int>, Seq<Team>, Seq<Seq<Team>>))
    requires
        ready(rates, now, items, previous),
    ensures
        ({
            let (from, guests, stages) = r;
            let fresh = newcomers(items, previous);
            let n = guests.len() as int;
            &&& stages.len() == n + 1
            &&& stages[n] == carried(rates, now, items, previous)
            &&& stages[0].len() == from.len()
            &&& forall|x: int|
                0 <= x < from.len() ==> 0 <= #[trigger] from[x] < previous.len()
                    && stages[0][x].members == previous[from[x]].members.intersect(items.dom())
                    && stages[0][x].shape == gather(items, stages[0][x].members)
            &&& forall|x: int, y: int|
                0 <= x < y < from.len() ==> #[trigger] from[x] < #[trigger] from[y]
            &&& forall|i: int, t: usize|
                0 <= i < previous.len() && #[trigger] previous[i].members.contains(t)
                    && items.contains_key(t) ==> from.contains(i)
            &&& forall|k: int|
                0 <= k < n ==> comes_together(items, fresh, #[trigger] guests[k]) && takes_in(
                    rates,
                    now,
                    stages[k],
                    guests[k],
                    stages[k + 1],
                )
            &&& forall|t: usize| #[trigger]
                fresh.contains(t) ==> exists|k: int|
                    0 <= k < n && (#[trigger] guests[k]).members.contains(t)
            &&& forall|k: int, l: int|
                0 <= k < l < n ==> goes_before(rates, shapes(guests), k, l) && (
                #[trigger] guests[k]).shape.checks != (#[trigger] guests[l]).shape.checks
        }),
{
    let stay = kept(items, previous);
    let fresh = items.dom().difference(held(stay));
    let incoming = patterns(items, fresh);
    let from = lemma_sources(items, previous);
    lemma_kept(items, previous);
    assert(held(stay).subset_of(items.dom()));
    vstd::set_lib::lemma_set_subset_finite(items.dom(), held(stay));
    lemma_patterns_arrange(items, fresh);
    lemma_patterns(items, fresh);
    lemma_splits_len(crews(stay), held(stay));
    lemma_splits_len(crews(incoming), fresh);
    assert(held(stay).union(fresh) =~= items.dom());
    vstd::set_lib::lemma_set_disjoint_lens(held(stay), fresh);
    assert(fresh =~= newcomers(items, previous)) by {
        assert forall|t: usize| #[trigger] fresh.contains(t) implies newcomers(
            items,
            previous,
        ).contains(t) by {
            assert forall|i: int| 0 <= i < previous.len() implies !(
            #[trigger] previous[i]).members.contains(t) by {
                if previous[i].members.contains(t) {
                    assert(held(previous).contains(t));
                }
            }
        }
        assert forall|t: usize| #[trigger] newcomers(items, previous).contains(
            t,
        ) implies fresh.contains(t) by {
            if held(previous).contains(t) {
                let i = choose|i: int|
                    0 <= i < previous.len() && (#[trigger] previous[i]).members.contains(t);
                assert(false);
            }
        }
    }
    let (order, stages) = lemma_one_by_one(rates, now, stay, incoming);
    let guests = Seq::new(order.len(), |k: int| incoming[order[k] as int]);
    assert forall|x: int| 0 <= x < from.len() implies 0 <= #[trigger] from[x] < previous.len()
        && stages[0][x].members == previous[from[x]].members.intersect(items.dom())
        && stages[0][x].shape == gather(items, stages[0][x].members) by {
        assert(stay[x].shape == gather(items, stay[x].members));
    }
    assert forall|i: int, t: usize|
        0 <= i < previous.len() && #[trigger] previous[i].members.contains(t)
            && items.contains_key(t) implies from.contains(i) by {
        assert(previous[i].members.intersect(items.dom()).contains(t));
    }
    assert forall|k: int| 0 <= k < guests.len() implies comes_together(
        items,
        fresh,
        #[trigger] guests[k],
    ) && takes_in(rates, now, stages[k], guests[k], stages[k + 1]) by {
        let j = order[k] as int;
        lemma_guest(items, fresh, j);
        assert(takes_in(rates, now, stages[k], incoming[order[k] as int], stages[k + 1]));
    }
    assert forall|t: usize| #[trigger] fresh.contains(t) implies exists|k: int|
        0 <= k < guests.len() && (#[trigger] guests[k]).members.contains(t) by {
        let j = choose|j: int|
            0 <= j < crews(incoming).len() && #[trigger] crews(incoming)[j].contains(t);
        lemma_all_placed(order, incoming.len(), j);
        let k = choose|k: int| 0 <= k < order.len() && order[k] == j;
        assert(guests[k].members.contains(t));
    }
    assert forall|k: int, l: int| 0 <= k < l < guests.len() implies goes_before(
        rates,
        shapes(guests),
        k,
        l,
    ) && (#[trigger] guests[k]).shape.checks != (#[trigger] guests[l]).shape.checks by {
        assert(order[k] != order[l]);
        if guests[k].shape.checks == guests[l].shape.checks {
            lemma_patterns_distinct(items, fresh, order[k] as int, order[l] as int);
        }
        assert(goes_before(rates, shapes(incoming), order[k] as int, order[l] as int));
        assert(shapes(guests)[k] == shapes(incoming)[order[k] as int]);
        assert(shapes(guests)[l] == shapes(incoming)[order[l] as int]);
    }
    (from, guests, stages)
}

/// One pattern of the newcomers.
proof fn lemma_guest(items: Map<usize, Shape>, fresh: Set<usize>, j: int)
    requires
        fresh.finite(),
        0 <= j < patterns(items, fresh).len(),
    ensures
        comes_together(items, fresh, patterns(items, fresh)[j]),
{
    let guest = patterns(items, fresh)[j];
    lemma_patterns(items, fresh);
    assert(guest == team_of(items, alike(items, fresh, guest.shape.checks)));
    assert(inhabited(guest.members));
    let t = choose|t: usize| #[trigger] guest.members.contains(t);
    assert(guest.members.contains(t));
    vstd::set_lib::lemma_set_subset_finite(fresh, guest.members);
    assert(guest.members.len() > 0);
    lemma_gather_urgent(items, guest.members);
    let u = choose|u: usize| #[trigger]
        guest.members.contains(u) && items[u].deadline == gather(items, guest.members).deadline;
    assert(guest.members.contains(u) && items[u] == guest.shape);
}

/// An order without repetitions of as many positions as there are has them all.
proof fn lemma_all_placed(order: Seq<usize>, n: nat, j: int)
    requires
        order.len() == n,
        order.no_duplicates(),
        forall|k: int| 0 <= k < n ==> (#[trigger] order[k]) < n,
        0 <= j < n,
        n <= usize::MAX,
    ensures
        exists|k: int| 0 <= k < order.len() && order[k] == j,
{
    lemma_upto(n);
    order.unique_seq_to_set();
    assert(order.to_set().subset_of(upto(n)));
    vstd::set_lib::lemma_subset_equality(order.to_set(), upto(n));
    assert(order.to_set().contains(j as usize));
}

} // verus!
