//! Where a newcomer goes: among the batches with time for it, to the one that it costs
//! least, and who goes first.
use vstd::arithmetic::power2::{lemma_pow2_pos, lemma_pow2_unfold, pow2};
use vstd::prelude::*;

use crate::bits::{bits_lt, lemma_bits_total, tops};
use crate::listing::{first, lemma_first_exists, lemma_listing, lemma_upto, upto};
use crate::partition::inhabited;
use crate::shape::{Rates, Shape};
use crate::team::{
    best_fit, closer, hosts, inserted, lemma_best_fit, lemma_closer_orders, lemma_sooner_orders,
    lemma_urgency, placed, placed_upto, shapes, sooner, urgency, Team,
};

verus! {

/// The number whose binary digits below `n` are set where the set has them.
pub open spec fn numeral(s: Set<usize>, n: nat) -> nat
    decreases n,
{
    if n == 0 {
        0
    } else if s.contains((n - 1) as usize) {
        numeral(s, (n - 1) as nat) + pow2((n - 1) as nat)
    } else {
        numeral(s, (n - 1) as nat)
    }
}

proof fn lemma_numeral_below(s: Set<usize>, n: nat)
    ensures
        numeral(s, n) < pow2(n),
    decreases n,
{
    lemma_pow2_pos(n);
    if n > 0 {
        lemma_numeral_below(s, (n - 1) as nat);
        lemma_pow2_unfold(n);
    }
}

/// Where the sets differ highest below `n`, the numerals differ likewise.
proof fn lemma_numeral_tops(a: Set<usize>, b: Set<usize>, k: usize, n: nat)
    requires
        tops(a, b, k),
        k < n <= usize::MAX + 1,
    ensures
        numeral(a, n) < numeral(b, n),
    decreases n,
{
    if n == k + 1 {
        lemma_numeral_below(a, k as nat);
    } else {
        let top = (n - 1) as usize;
        assert(a.contains(top) <==> b.contains(top));
        lemma_numeral_tops(a, b, k, (n - 1) as nat);
    }
}

/// Sets of checks are compared as binary numerals.
pub proof fn lemma_numeral_order(a: Set<usize>, b: Set<usize>, n: nat)
    requires
        n <= usize::MAX + 1,
        a.finite(),
        b.finite(),
        forall|k: usize| #[trigger] a.contains(k) ==> k < n,
        forall|k: usize| #[trigger] b.contains(k) ==> k < n,
    ensures
        bits_lt(a, b) <==> numeral(a, n) < numeral(b, n),
        a != b ==> numeral(a, n) != numeral(b, n),
{
    if bits_lt(a, b) {
        let k = choose|k: usize| #[trigger] tops(a, b, k);
        assert(b.contains(k));
        lemma_numeral_tops(a, b, k, n);
    } else if a != b {
        lemma_bits_total(a, b);
        let k = choose|k: usize| #[trigger] tops(b, a, k);
        assert(a.contains(k));
        lemma_numeral_tops(b, a, k, n);
    }
}

/// How late a demand can start.
pub open spec fn slack(rates: Rates, shape: Shape) -> int {
    shape.deadline - rates.boot - rates.work(shape.checks)
}

/// The first of two demands goes before the second: it has to start sooner, or, if not,
/// its checks are the smaller numeral, or it comes first in the list.
pub open spec fn goes_before(rates: Rates, s: Seq<Shape>, a: int, b: int) -> bool {
    ||| slack(rates, s[a]) < slack(rates, s[b])
    ||| slack(rates, s[a]) == slack(rates, s[b]) && bits_lt(s[a].checks, s[b].checks)
    ||| slack(rates, s[a]) == slack(rates, s[b]) && s[a].checks == s[b].checks && a < b
}

/// Run together from now, both are done in time.
pub open spec fn has_room(rates: Rates, now: u64, host: Shape, guest: Shape) -> bool {
    let done = now + rates.boot + rates.work(host.checks.union(guest.checks));
    done <= host.deadline && done <= guest.deadline
}

/// The seconds that taking in the guest adds to the host.
pub open spec fn added(rates: Rates, host: Shape, guest: Shape) -> int {
    rates.work(host.checks.union(guest.checks)) - rates.work(host.checks)
}

/// Both as one batch.
pub open spec fn both(host: Team, guest: Team) -> Team {
    Team {
        shape: Shape {
            checks: host.shape.checks.union(guest.shape.checks),
            deadline: if host.shape.deadline < guest.shape.deadline {
                host.shape.deadline
            } else {
                guest.shape.deadline
            },
        },
        members: host.members.union(guest.members),
    }
}

/// The guest goes to the batch at `i`: it has room, and any other with room would cost
/// more, or as much and goes after.
pub open spec fn chosen(rates: Rates, now: u64, teams: Seq<Team>, guest: Team, i: int) -> bool {
    let s = shapes(teams);
    &&& 0 <= i < teams.len()
    &&& has_room(rates, now, teams[i].shape, guest.shape)
    &&& forall|j: int|
        0 <= j < teams.len() && j != i && has_room(rates, now, (#[trigger] teams[j]).shape, guest.shape)
            ==> {
            let mine = added(rates, teams[i].shape, guest.shape);
            let other = added(rates, teams[j].shape, guest.shape);
            mine < other || mine == other && goes_before(rates, s, i, j)
        }
}

/// The batches after the guest has found its place: the one that is chosen takes it in, or
/// it gets a machine of its own because none has room.
pub open spec fn takes_in(
    rates: Rates,
    now: u64,
    before: Seq<Team>,
    guest: Team,
    after: Seq<Team>,
) -> bool {
    ||| exists|i: int| #[trigger]
        chosen(rates, now, before, guest, i) && after == before.update(i, both(before[i], guest))
    ||| after == before.push(guest) && forall|j: int|
        0 <= j < before.len() ==> !has_room(rates, now, (#[trigger] before[j]).shape, guest.shape)
}

/// A newcomer goes to the batch that it costs least, if any has time for it.
pub proof fn lemma_takes_in(rates: Rates, now: u64, teams: Seq<Team>, guest: Team)
    requires
        teams.len() <= usize::MAX,
    ensures
        takes_in(rates, now, teams, guest, placed(rates, now, teams, guest)),
{
    let s = shapes(teams);
    let job = guest.shape;
    let h = hosts(rates, now, s, job);
    let lt = |a: usize, b: usize| closer(rates, s, job, a, b);
    lemma_best_fit(rates, now, s, job);
    assert forall|j: int| 0 <= j < teams.len() && has_room(
        rates,
        now,
        (#[trigger] teams[j]).shape,
        job,
    ) implies h.contains(j as usize) by {
        assert(s[j] == teams[j].shape);
    }
    match best_fit(rates, now, s, job) {
        Some(i) => {
            lemma_upto(s.len());
            assert(h.subset_of(upto(s.len())));
            vstd::set_lib::lemma_set_subset_finite(upto(s.len()), h);
            lemma_closer_orders(rates, s, job, h);
            assert(h.len() > 0);
            lemma_first_exists(h, lt);
            assert(first(h, lt) == i);
            assert(chosen(rates, now, teams, guest, i as int)) by {
                assert forall|j: int|
                    0 <= j < teams.len() && j != i && has_room(
                        rates,
                        now,
                        (#[trigger] teams[j]).shape,
                        guest.shape,
                    ) implies {
                    let mine = added(rates, teams[i as int].shape, guest.shape);
                    let other = added(rates, teams[j].shape, guest.shape);
                    mine < other || mine == other && goes_before(rates, s, i as int, j)
                } by {
                    assert(h.contains(j as usize));
                    assert(lt(i, j as usize));
                    assert(sooner(rates, s, i, j as usize) ==> goes_before(rates, s, i as int, j));
                }
            }
            assert(placed(rates, now, teams, guest) == teams.update(
                i as int,
                both(teams[i as int], guest),
            ));
        },
        None => {
            assert forall|j: int| 0 <= j < teams.len() implies !has_room(
                rates,
                now,
                (#[trigger] teams[j]).shape,
                job,
            ) by {
                if has_room(rates, now, teams[j].shape, job) {
                    assert(h.contains(j as usize));
                    assert(inhabited(h));
                }
            }
        },
    }
}

/// Newcomers find their places one by one, those that have to start soonest first.
pub proof fn lemma_one_by_one(rates: Rates, now: u64, teams: Seq<Team>, incoming: Seq<Team>) -> (r: (
    Seq<usize>,
    Seq<Seq<Team>>,
))
    requires
        teams.len() + incoming.len() <= usize::MAX,
    ensures
        ({
            let (order, stages) = r;
            let n = incoming.len() as int;
            &&& order.len() == n && order.no_duplicates()
            &&& forall|k: int| 0 <= k < n ==> (#[trigger] order[k]) < n
            &&& forall|k: int, l: int|
                0 <= k < l < n ==> goes_before(
                    rates,
                    shapes(incoming),
                    (#[trigger] order[k]) as int,
                    (#[trigger] order[l]) as int,
                )
            &&& stages.len() == n + 1 && stages[0] == teams && stages[n] == inserted(
                rates,
                now,
                teams,
                incoming,
            )
            &&& forall|k: int|
                0 <= k < n ==> takes_in(
                    rates,
                    now,
                    #[trigger] stages[k],
                    incoming[order[k] as int],
                    stages[k + 1],
                )
        }),
{
    let n = incoming.len();
    let s = shapes(incoming);
    let order = urgency(rates, s);
    let stages = Seq::new(n + 1, |k: int| placed_upto(rates, now, teams, incoming, order, k as nat));
    assert(s.len() == n);
    lemma_urgency(rates, s);
    lemma_upto(n);
    lemma_sooner_orders(rates, s, upto(n));
    let lt = |a: usize, b: usize| sooner(rates, s, a, b);
    lemma_listing(upto(n), lt);
    assert forall|k: int, l: int| 0 <= k < l < n implies goes_before(
        rates,
        s,
        (#[trigger] order[k]) as int,
        (#[trigger] order[l]) as int,
    ) by {
        assert(lt(order[k], order[l]));
    }
    assert forall|k: int| 0 <= k < n implies takes_in(
        rates,
        now,
        #[trigger] stages[k],
        incoming[order[k] as int],
        stages[k + 1],
    ) by {
        lemma_stage_len(rates, now, teams, incoming, order, k as nat);
        lemma_takes_in(rates, now, stages[k], incoming[order[k] as int]);
    }
    (order, stages)
}

proof fn lemma_stage_len(
    rates: Rates,
    now: u64,
    teams: Seq<Team>,
    incoming: Seq<Team>,
    order: Seq<usize>,
    k: nat,
)
    requires
        teams.len() + k <= usize::MAX,
    ensures
        placed_upto(rates, now, teams, incoming, order, k).len() <= teams.len() + k,
    decreases k,
{
    if k > 0 {
        let before = placed_upto(rates, now, teams, incoming, order, (k - 1) as nat);
        lemma_stage_len(rates, now, teams, incoming, order, (k - 1) as nat);
        lemma_best_fit(rates, now, shapes(before), incoming[order[k - 1] as int].shape);
    }
}

} // verus!
