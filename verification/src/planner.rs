//! Maintain a feasible partition of one repository's unlaunched jobs.
//!
//! Existing assignments are an incumbent, not a commitment. Replanning may
//! replace them only with feasible groups that strictly improve the policy's
//! score. Launched jobs never enter this module again.
use std::collections::{BTreeMap, BTreeSet};

use vstd::prelude::*;

use crate::arrange::arrange;
use crate::bound::{
    capacity, clash, last_deadline, lemma_last_deadline, lemma_lower_bound, lemma_singles,
    lower_bound as bound_of, machines, singles, total, witnesses,
};
use crate::checks::{increasing, Checks, Costs};
use crate::exact::exact_partition;
use crate::group::{
    filed, items, lemma_covers_union, lemma_team_covered, live, patterns, payable, priced, rosters,
    summarize, teams, tokens, Group, Pending,
};
use crate::listing::{lemma_ascending_unique, lemma_upto, upto};
use crate::partition::{
    gathered, indexed, inhabited, lemma_seconds_bound, score as score_of, seconds,
};
use crate::plan::{
    alternative, carried, competed, effort, greedy, held, kept, made_of, plan as plan_of, ready,
    EXACT_PATTERN_LIMIT,
};
use crate::plan_laws::{lemma_all, lemma_alternative, lemma_carried, lemma_kept};
use crate::policy::{Policy, Stats};
use crate::roster::{
    alternative_lists, carried_lists, inserted_lists, kept_lists, left_on, plan_lists, seated,
    seated_upto,
};
use crate::search::{improve, join_listed};
use crate::shape::{
    gather, join, lemma_gather_empty, lemma_gather_insert, lemma_join_monotone, Rates, Shape,
};
use crate::team::{
    best_fit, bundle, closer, crews, extra, hosts, inserted, lemma_best_fit_is, lemma_closer_orders,
    lemma_patterns_arrange, lemma_patterns_on_time, lemma_sooner_orders, lemma_urgency, merge,
    on_time, patterns as pattern_teams, placed_upto, shapes, sooner, urgency, Team,
};

verus! {

/// Batch count and machine seconds of a plan.
pub fn score(groups: &Vec<Group>, costs: &Costs) -> (score: (usize, u128))
    requires
        priced(*costs, groups@),
        seconds(costs@, shapes(teams(groups@))) <= u128::MAX,
    ensures
        (score.0 as nat, score.1 as nat) == score_of(costs@, shapes(teams(groups@))),
{
    let ghost all = shapes(teams(groups@));
    let mut total: u128 = 0;
    let mut i: usize = 0;
    while i < groups.len()
        invariant
            priced(*costs, groups@),
            all == shapes(teams(groups@)),
            seconds(costs@, all) <= u128::MAX,
            i <= groups.len(),
            total == seconds(costs@, all.take(i as int)),
        decreases groups.len() - i,
    {
        proof {
            let next = all.take(i + 1);
            assert(next.drop_last() =~= all.take(i as int));
            assert(next.last() == groups@[i as int]@.shape);
            assert(all =~= next + all.skip(i + 1));
            crate::partition::lemma_seconds_concat(costs@, next, all.skip(i + 1));
        }
        total = total + costs.duration(&groups[i].checks);
        i = i + 1;
    }
    assert(all.take(i as int) =~= all);
    (groups.len(), total)
}

/// Batches that can wait until `now` take seconds that fit.
pub proof fn lemma_seconds_fit(rates: Rates, teams: Seq<Team>, now: u64)
    requires
        on_time(rates, teams, now),
        teams.len() <= usize::MAX,
    ensures
        seconds(rates, shapes(teams)) <= u128::MAX,
        seconds(rates, shapes(teams)) <= teams.len() * u64::MAX,
{
    let s = shapes(teams);
    let n = s.len();
    assert forall|i: int| 0 <= i < s.len() implies rates.duration((#[trigger] s[i]).checks)
        <= u64::MAX by {
        assert(rates.fits(teams[i].shape, now));
    }
    lemma_seconds_bound(rates, s, u64::MAX as nat);
    assert(n * u64::MAX <= u128::MAX) by (nonlinear_arith)
        requires
            n <= 0xffff_ffff_ffff_ffff,
    ;
}

/// The position of each batch, the one that must start first in front.
fn by_urgency(groups: &Vec<Group>, costs: &Costs) -> (order: Vec<usize>)
    requires
        priced(*costs, groups@),
        forall|i: int|
            0 <= i < groups.len() ==> costs@.latest((#[trigger] groups@[i])@.shape) >= 0,
    ensures
        order@ == urgency(costs@, shapes(teams(groups@))),
        order.len() == groups.len(),
        forall|i: int| 0 <= i < order.len() ==> (#[trigger] order@[i]) < groups.len(),
{
    let ghost s = shapes(teams(groups@));
    let ghost lt = |a: usize, b: usize| sooner(costs@, s, a, b);
    let mut starts: Vec<u64> = Vec::new();
    let mut i: usize = 0;
    while i < groups.len()
        invariant
            priced(*costs, groups@),
            forall|i: int|
                0 <= i < groups.len() ==> costs@.latest((#[trigger] groups@[i])@.shape) >= 0,
            i <= groups.len(),
            starts.len() == i,
            forall|k: int|
                0 <= k < i ==> #[trigger] starts@[k] == costs@.latest(groups@[k]@.shape),
        decreases groups.len() - i,
    {
        starts.push(groups[i].latest(costs));
        i = i + 1;
    }
    let n: usize = groups.len();
    let before = |a: usize, b: usize| -> (less: bool)
        requires
            a < n,
            b < n,
            n == groups.len(),
            n == starts.len(),
            forall|k: int| 0 <= k < n ==> (#[trigger] groups@[k]).checks.wf(),
            forall|k: int|
                0 <= k < n ==> #[trigger] starts@[k] == costs@.latest(groups@[k]@.shape),
        ensures
            less == sooner(costs@, shapes(teams(groups@)), a, b),
        {
            let ghost s = shapes(teams(groups@));
            assert(s[a as int] == groups@[a as int]@.shape);
            assert(s[b as int] == groups@[b as int]@.shape);
            if starts[a] != starts[b] {
                starts[a] < starts[b]
            } else if groups[a].checks.precedes(&groups[b].checks) {
                true
            } else {
                a < b && groups[a].checks.same(&groups[b].checks)
            }
        };
    proof {
        lemma_sooner_orders(costs@, s, upto(n as nat));
        lemma_urgency(costs@, s);
    }
    arrange(n, before, Ghost(lt))
}

/// The batch that takes in `job` at the least cost, if any can and still be on time.
fn find_host(groups: &Vec<Group>, job: &Group, costs: &Costs, now: u64) -> (host: Option<usize>)
    requires
        priced(*costs, groups@),
        costs.covers(job.checks),
    ensures
        host == best_fit(costs@, now, shapes(teams(groups@)), job@.shape),
        host matches Some(i) ==> i < groups.len(),
{
    let ghost s = shapes(teams(groups@));
    let ghost want = job@.shape;
    let ghost all = hosts(costs@, now, s, want);
    let mut best: Option<(u128, u64, usize)> = None;
    let mut i: usize = 0;
    while i < groups.len()
        invariant
            priced(*costs, groups@),
            costs.covers(job.checks),
            s == shapes(teams(groups@)),
            want == job@.shape,
            all == hosts(costs@, now, s, want),
            i <= groups.len(),
            match best {
                Some((cost, start, b)) => {
                    &&& b < i
                    &&& all.contains(b)
                    &&& cost == extra(costs@, s[b as int], want)
                    &&& start == costs@.latest(s[b as int])
                    &&& forall|j: usize|
                        all.contains(j) && j < i && j != b ==> #[trigger] closer(
                            costs@,
                            s,
                            want,
                            b,
                            j,
                        )
                },
                None => forall|j: usize| j < i ==> !#[trigger] all.contains(j),
            },
        decreases groups.len() - i,
    {
        let group: &Group = &groups[i];
        let union: Checks = group.checks.union(&job.checks);
        let oldest: u64 = if group.deadline <= job.deadline {
            group.deadline
        } else {
            job.deadline
        };
        proof {
            lemma_covers_union(*costs, group.checks, job.checks, union);
            assert(s[i as int] == group@.shape);
            assert(join(s[i as int], want) == Shape { checks: union@, deadline: oldest });
            lemma_join_monotone(costs@, s[i as int], want);
            lemma_closer_orders(costs@, s, want, all);
        }
        if let Some(latest) = costs.latest(&union, oldest) {
            if latest >= now {
                let cost: u128 = costs.duration(&union) - costs.duration(&group.checks);
                let start: u64 = group.latest(costs);
                let ghost lt = |a: usize, b: usize| closer(costs@, s, want, a, b);
                let wins: bool = match best {
                    None => true,
                    Some((old_cost, old_start, b)) => if cost != old_cost {
                        cost < old_cost
                    } else if start != old_start {
                        start < old_start
                    } else {
                        group.checks.precedes(&groups[b].checks)
                    },
                };
                proof {
                    assert(all.contains(i));
                    if let Some((old_cost, old_start, b)) = best {
                        assert(s[b as int] == groups@[b as int]@.shape);
                        crate::bits::lemma_bits_irreflexive(group.checks@);
                        if !wins {
                            if group.checks@ != groups@[b as int].checks@ {
                                crate::bits::lemma_bits_total(
                                    group.checks@,
                                    groups@[b as int].checks@,
                                );
                            }
                            assert(closer(costs@, s, want, b, i));
                        } else {
                            assert(lt(i, b));
                            assert forall|j: usize|
                                all.contains(j) && j < i + 1 && j != i implies #[trigger] closer(
                                costs@,
                                s,
                                want,
                                i,
                                j,
                            ) by {
                                if j != b {
                                    assert(closer(costs@, s, want, b, j));
                                    assert(lt(b, j));
                                    assert(lt(i, j));
                                }
                            }
                        }
                    }
                }
                if wins {
                    best = Some((cost, start, i));
                }
            }
        }
        i = i + 1;
    }
    match best {
        Some((_, _, b)) => {
            proof {
                lemma_best_fit_is(costs@, now, s, want, b);
            }
            Some(b)
        },
        None => {
            assert(!inhabited(all));
            None
        },
    }
}

/// Insert by earliest individual latest-launch time, then cheapest feasible fit.
pub fn insert(groups: &mut Vec<Group>, incoming: Vec<Group>, costs: &Costs, now: u64)
    requires
        priced(*costs, old(groups)@),
        priced(*costs, incoming@),
        forall|i: int|
            0 <= i < incoming.len() ==> costs@.latest((#[trigger] incoming@[i])@.shape) >= 0,
    ensures
        teams(final(groups)@) == inserted(costs@, now, teams(old(groups)@), teams(incoming@)),
        rosters(final(groups)@) == inserted_lists(
            costs@,
            now,
            teams(old(groups)@),
            rosters(old(groups)@),
            teams(incoming@),
            rosters(incoming@),
        ),
        priced(*costs, final(groups)@),
{
    let order: Vec<usize> = by_urgency(&incoming, costs);
    let ghost start = teams(groups@);
    let ghost coming = teams(incoming@);
    let ghost lists = rosters(groups@);
    let ghost more = rosters(incoming@);
    let mut k: usize = 0;
    while k < order.len()
        invariant
            priced(*costs, groups@),
            priced(*costs, incoming@),
            coming == teams(incoming@),
            more == rosters(incoming@),
            order@ == urgency(costs@, shapes(coming)),
            order.len() == incoming.len(),
            forall|i: int| 0 <= i < order.len() ==> (#[trigger] order@[i]) < incoming.len(),
            k <= order.len(),
            teams(groups@) == placed_upto(costs@, now, start, coming, order@, k as nat),
            rosters(groups@) == seated_upto(
                costs@,
                now,
                start,
                lists,
                coming,
                more,
                order@,
                k as nat,
            ),
        decreases order.len() - k,
    {
        let job: &Group = &incoming[order[k]];
        let ghost before = teams(groups@);
        let ghost were = rosters(groups@);
        assert(coming[order@[k as int] as int] == job@);
        assert(more[order@[k as int] as int] == job.members@);
        let host: Option<usize> = find_host(groups, job, costs, now);
        match host {
            Some(i) => {
                let both: Group = groups[i].merge(job);
                proof {
                    lemma_covers_union(*costs, groups@[i as int].checks, job.checks, both.checks);
                }
                groups.set(i, both);
                assert(teams(groups@) =~= before.update(i as int, merge(before[i as int], job@)));
                assert(rosters(groups@) =~= seated(were, host, job.members@));
            },
            None => {
                groups.push(job.clone());
                assert(teams(groups@) =~= before.push(job@));
                assert(rosters(groups@) =~= seated(were, host, job.members@));
            },
        }
        k = k + 1;
    }
}

/// What running all batches as one asks for.
pub fn everything(groups: &Vec<Group>, costs: &Costs) -> (union: Checks)
    requires
        priced(*costs, groups@),
    ensures
        costs.covers(union),
        union@ == total(shapes(teams(groups@))).checks,
{
    let ghost s = shapes(teams(groups@));
    let mut union: Checks = Checks::default();
    let mut i: usize = 0;
    proof {
        assert(upto(0) =~= Set::empty());
        lemma_gather_empty(indexed(s));
        crate::group::lemma_covers(*costs, union);
    }
    while i < groups.len()
        invariant
            priced(*costs, groups@),
            s == shapes(teams(groups@)),
            i <= groups.len(),
            costs.covers(union),
            union@ == gather(indexed(s), upto(i as nat)).checks,
        decreases groups.len() - i,
    {
        let next: Checks = union.union(&groups[i].checks);
        proof {
            lemma_upto(i as nat);
            assert(upto((i + 1) as nat) =~= upto(i as nat).insert(i));
            lemma_gather_insert(indexed(s), upto(i as nat), i);
            assert(s[i as int] == groups@[i as int]@.shape);
            lemma_covers_union(*costs, union, groups@[i as int].checks, next);
        }
        union = next;
        i = i + 1;
    }
    union
}

/// Demands that can each wait until `now` keep the bound within machine range.
pub proof fn lemma_bound_fits(rates: Rates, now: u64, s: Seq<Shape>)
    requires
        0 < s.len() <= usize::MAX,
        forall|i: int| 0 <= i < s.len() ==> rates.fits(#[trigger] s[i], now),
    ensures
        machines(rates, now, s) <= s.len(),
        bound_of(rates, now, s).0 <= s.len(),
        rates.work(total(s).checks) <= bound_of(rates, now, s).1 <= s.len() * u64::MAX,
        capacity(rates, now, s) >= 0,
{
    let parts = singles(s.len());
    let alone = gathered(indexed(s), parts);
    lemma_singles(rates, now, s);
    lemma_lower_bound(rates, now, s, parts);
    assert forall|i: int| 0 <= i < alone.len() implies rates.duration((#[trigger] alone[i]).checks)
        <= u64::MAX by {
        assert(rates.fits(gather(indexed(s), parts[i]), now));
    }
    lemma_seconds_bound(rates, alone, u64::MAX as nat);
    lemma_last_deadline(s, 0);
    assert(rates.fits(s[0], now));
    assert(bound_of(rates, now, s).0 * rates.boot as nat >= 0) by (nonlinear_arith);
}

/// The most generous deadline among the batches.
fn longest(groups: &Vec<Group>) -> (deadline: u64)
    ensures
        deadline == last_deadline(shapes(teams(groups@))),
{
    let ghost s = shapes(teams(groups@));
    let mut deadline: u64 = 0;
    let mut i: usize = 0;
    while i < groups.len()
        invariant
            s == shapes(teams(groups@)),
            i <= groups.len(),
            deadline == last_deadline(s.take(i as int)),
        decreases groups.len() - i,
    {
        proof {
            assert(s.take(i + 1).drop_last() =~= s.take(i as int));
            assert(s.take(i + 1).last() == groups@[i as int]@.shape);
        }
        if deadline <= groups[i].deadline {
            deadline = groups[i].deadline;
        }
        i = i + 1;
    }
    assert(s.take(i as int) =~= s);
    deadline
}

/// The two batches can run as one and still wait until `now`.
fn share(a: &Group, b: &Group, costs: &Costs, now: u64) -> (fits: bool)
    requires
        costs.covers(a.checks),
        costs.covers(b.checks),
    ensures
        fits == !clash(costs@, now, a@.shape, b@.shape),
{
    let union: Checks = a.checks.union(&b.checks);
    let oldest: u64 = if a.deadline <= b.deadline {
        a.deadline
    } else {
        b.deadline
    };
    proof {
        lemma_covers_union(*costs, a.checks, b.checks, union);
        assert(join(a@.shape, b@.shape) == Shape { checks: union@, deadline: oldest });
    }
    match costs.latest(&union, oldest) {
        Some(latest) => latest >= now,
        None => false,
    }
}

// A set of mutually incompatible patterns needs one VM per pattern. A
// greedy set need not be maximal to provide a valid lower bound.
/// How many batches the greedy pick finds that cannot share a machine pairwise.
fn count_witnesses(groups: &Vec<Group>, costs: &Costs, now: u64) -> (count: usize)
    requires
        priced(*costs, groups@),
        forall|i: int|
            0 <= i < groups.len() ==> costs@.latest((#[trigger] groups@[i])@.shape) >= 0,
    ensures
        count == witnesses(
            costs@,
            now,
            shapes(teams(groups@)),
            urgency(costs@, shapes(teams(groups@))),
            groups@.len(),
        ).len(),
{
    let ghost s = shapes(teams(groups@));
    let order: Vec<usize> = by_urgency(groups, costs);
    let mut picked: Vec<usize> = Vec::new();
    let mut k: usize = 0;
    while k < order.len()
        invariant
            priced(*costs, groups@),
            s == shapes(teams(groups@)),
            order.len() == groups.len(),
            forall|i: int| 0 <= i < order.len() ==> (#[trigger] order@[i]) < groups.len(),
            k <= order.len(),
            picked@ == witnesses(costs@, now, s, order@, k as nat),
            forall|i: int| 0 <= i < picked.len() ==> (#[trigger] picked@[i]) < groups.len(),
        decreases order.len() - k,
    {
        let i: usize = order[k];
        let mut free: bool = true;
        let mut j: usize = 0;
        while j < picked.len() && free
            invariant
                priced(*costs, groups@),
                s == shapes(teams(groups@)),
                i < groups.len(),
                forall|i: int| 0 <= i < picked.len() ==> (#[trigger] picked@[i]) < groups.len(),
                j <= picked.len(),
                free ==> forall|m: int|
                    0 <= m < j ==> clash(
                        costs@,
                        now,
                        s[i as int],
                        s[(#[trigger] picked@[m]) as int],
                    ),
                !free ==> exists|m: int|
                    0 <= m < picked.len() && !clash(
                        costs@,
                        now,
                        s[i as int],
                        s[(#[trigger] picked@[m]) as int],
                    ),
            decreases picked.len() - j,
        {
            let other: usize = picked[j];
            assert(s[i as int] == groups@[i as int]@.shape);
            assert(s[other as int] == groups@[other as int]@.shape);
            if share(&groups[i], &groups[other], costs, now) {
                free = false;
            }
            j = j + 1;
        }
        if free {
            picked.push(i);
        }
        k = k + 1;
    }
    picked.len()
}

/// Lower bounds on any feasible partition of these already-arrived patterns.
pub fn lower_bound(patterns: &Vec<Group>, costs: &Costs, now: u64) -> (bound: (usize, u128))
    requires
        patterns.len() > 0,
        priced(*costs, patterns@),
        on_time(costs@, teams(patterns@), now),
    ensures
        (bound.0 as nat, bound.1 as nat) == bound_of(costs@, now, shapes(teams(patterns@))),
{
    let ghost s = shapes(teams(patterns@));
    let ghost n = s.len();
    proof {
        assert forall|i: int| 0 <= i < s.len() implies costs@.fits(#[trigger] s[i], now) by {
            assert(costs@.fits(teams(patterns@)[i].shape, now));
        }
        assert forall|i: int| 0 <= i < patterns.len() implies costs@.latest(
            (#[trigger] patterns@[i])@.shape,
        ) >= 0 by {
            assert(costs@.fits(teams(patterns@)[i].shape, now));
        }
        lemma_bound_fits(costs@, now, s);
        assert(n * u64::MAX <= 0xffff_ffff_ffff_ffff * u64::MAX) by (nonlinear_arith)
            requires
                n <= 0xffff_ffff_ffff_ffff,
        ;
    }
    let union: Checks = everything(patterns, costs);
    let work: u128 = costs.work(&union);
    // Every pattern is still feasible alone. Use the most generous deadline:
    // this overestimates each VM's capacity, so the resulting bound stays safe.
    let room: u128 = (longest(patterns) - now - costs.boot) as u128;
    let mut count: usize = 1;
    if room > 0 && work > 0 {
        let least: u128 = (work + room - 1) / room;
        assert(least == machines(costs@, now, s));
        count = least as usize;
    }
    let picked: usize = count_witnesses(patterns, costs, now);
    if count <= picked {
        count = picked;
    }
    let ghost boot = costs.boot as nat;
    assert(count * boot <= u128::MAX) by (nonlinear_arith)
        requires
            count <= 0xffff_ffff_ffff_ffff,
            boot <= 0xffff_ffff_ffff_ffff,
    ;
    (count, count as u128 * costs.boot as u128 + work)
}

/// What is left of each planned batch, and the jobs that they hold.
fn retain(pending: &BTreeMap<usize, Pending>, previous: &Vec<Group>, costs: &Costs) -> (out: (
    Vec<Group>,
    BTreeSet<usize>,
))
    requires
        filed(pending@),
        payable(*costs, pending@),
    ensures
        teams(out.0@) == kept(items(pending@), teams(previous@)),
        rosters(out.0@) == kept_lists(items(pending@), rosters(previous@)),
        priced(*costs, out.0@),
        out.1@ == held(teams(out.0@)),
{
    let ghost all = teams(previous@);
    let ghost lists = rosters(previous@);
    let mut stable: Vec<Group> = Vec::new();
    let mut assigned: BTreeSet<usize> = BTreeSet::new();
    let mut i: usize = 0;
    proof {
        assert(all.take(0) =~= Seq::<Team>::empty());
        assert(teams(stable@) =~= Seq::<Team>::empty());
        assert(lists.take(0) =~= Seq::<Seq<usize>>::empty());
        assert(rosters(stable@) =~= Seq::<Seq<usize>>::empty());
        assert(assigned@ =~= held(teams(stable@)));
    }
    while i < previous.len()
        invariant
            filed(pending@),
            payable(*costs, pending@),
            all == teams(previous@),
            i <= previous.len(),
            lists == rosters(previous@),
            teams(stable@) == kept(items(pending@), all.take(i as int)),
            rosters(stable@) == kept_lists(items(pending@), lists.take(i as int)),
            priced(*costs, stable@),
            assigned@ == held(teams(stable@)),
        decreases previous.len() - i,
    {
        let ghost before = teams(stable@);
        let ghost were = rosters(stable@);
        proof {
            assert(lists.take(i + 1).drop_last() =~= lists.take(i as int));
            assert(lists.take(i + 1).last() == previous@[i as int].members@);
            lemma_left_on(pending@, previous@[i as int].members@);
            assert(all.take(i + 1).drop_last() =~= all.take(i as int));
            assert(all.take(i + 1).last() == previous@[i as int]@);
            assert(live(pending@, previous@[i as int].members@.to_set())
                =~= previous@[i as int]@.members.intersect(items(pending@).dom()));
        }
        if let Some(group) = summarize(pending, &previous[i].members) {
            proof {
                lemma_team_covered(
                    *costs,
                    pending@,
                    group,
                    live(pending@, previous@[i as int].members@.to_set()),
                );
            }
            let ghost old_assigned = assigned@;
            let mut k: usize = 0;
            assert(group.members@.take(0).to_set() =~= Set::empty());
            while k < group.members.len()
                invariant
                    k <= group.members.len(),
                    assigned@ == old_assigned.union(group.members@.take(k as int).to_set()),
                decreases group.members.len() - k,
            {
                let token: usize = group.members[k];
                assigned.insert(token);
                proof {
                    assert(group.members@.take(k + 1) =~= group.members@.take(k as int).push(
                        token,
                    ));
                    group.members@.take(k as int).lemma_push_to_set_commute(token);
                    assert(assigned@ =~= old_assigned.union(
                        group.members@.take(k + 1).to_set(),
                    ));
                }
                k = k + 1;
            }
            assert(group.members@.take(k as int) =~= group.members@);
            let ghost made = group@;
            let ghost list = group.members@;
            stable.push(group);
            proof {
                assert(teams(stable@) =~= before.push(made));
                assert(rosters(stable@) =~= were.push(list));
                lemma_held_push(before, made);
            }
        }
        i = i + 1;
    }
    assert(all.take(i as int) =~= all);
    assert(lists.take(i as int) =~= lists);
    (stable, assigned)
}

/// Those on a list who still wait, and that there are some exactly if the list keeps some.
proof fn lemma_left_on(pending: Map<usize, Pending>, list: Seq<usize>)
    ensures
        left_on(items(pending), list) == list.filter(|t: usize| pending.contains_key(t)),
        left_on(items(pending), list).len() > 0 <==> inhabited(live(pending, list.to_set())),
{
    let a = |t: usize| items(pending).contains_key(t);
    let b = |t: usize| pending.contains_key(t);
    assert(a =~= b);
    let left = left_on(items(pending), list);
    if left.len() > 0 {
        list.lemma_filter_pred(a, 0);
        list.lemma_filter_contains_rev(a, left[0]);
        assert(live(pending, list.to_set()).contains(left[0]));
    }
    if inhabited(live(pending, list.to_set())) {
        let t = choose|t: usize| #[trigger] live(pending, list.to_set()).contains(t);
        let i = choose|i: int| 0 <= i < list.len() && list[i] == t;
        list.lemma_filter_contains(a, i);
    }
}

/// One more batch holds its members too.
pub proof fn lemma_held_push(before: Seq<Team>, team: Team)
    ensures
        held(before.push(team)) == held(before).union(team.members),
{
    let after = before.push(team);
    assert forall|t: usize| #[trigger] held(after).contains(t) <==> held(before).union(
        team.members,
    ).contains(t) by {
        if held(after).contains(t) {
            let i = choose|i: int| 0 <= i < after.len() && (#[trigger] after[i]).members.contains(t);
            if i < before.len() {
                assert(before[i].members.contains(t));
            }
        }
        if held(before).contains(t) {
            let i = choose|i: int|
                0 <= i < before.len() && (#[trigger] before[i]).members.contains(t);
            assert(after[i].members.contains(t));
        }
        if team.members.contains(t) {
            assert(after[before.len() as int].members.contains(t));
        }
    }
    assert(held(after) =~= held(before).union(team.members));
}

/// The tokens that are not assigned yet.
fn unassigned(tokens: &Vec<usize>, assigned: &BTreeSet<usize>) -> (rest: Vec<usize>)
    requires
        increasing(tokens@),
    ensures
        increasing(rest@),
        rest@.no_duplicates(),
        rest@.to_set() == tokens@.to_set().difference(assigned@),
{
    let mut rest: Vec<usize> = Vec::new();
    let mut i: usize = 0;
    assert(tokens@.take(0).to_set() =~= Set::empty());
    assert(rest@.to_set() =~= Set::empty());
    while i < tokens.len()
        invariant
            increasing(tokens@),
            i <= tokens.len(),
            increasing(rest@),
            rest@.to_set() == tokens@.take(i as int).to_set().difference(assigned@),
            forall|k: int|
                0 <= k < rest.len() && i < tokens.len() ==> (#[trigger] rest@[k])
                    < tokens@[i as int],
        decreases tokens.len() - i,
    {
        let token: usize = tokens[i];
        let ghost before = rest@;
        proof {
            assert(tokens@.take(i + 1) =~= tokens@.take(i as int).push(token));
            tokens@.take(i as int).lemma_push_to_set_commute(token);
            if i + 1 < tokens.len() {
                assert(tokens@[i as int] < tokens@[i + 1]);
            }
        }
        if !assigned.contains(&token) {
            rest.push(token);
            proof {
                before.lemma_push_to_set_commute(token);
            }
        }
        assert(rest@.to_set() =~= tokens@.take(i + 1).to_set().difference(assigned@));
        i = i + 1;
    }
    assert(tokens@.take(i as int) =~= tokens@);
    rest
}

/// Positions `0..n`.
fn positions(n: usize) -> (all: Vec<usize>)
    ensures
        all.len() == n,
        forall|k: int| 0 <= k < n ==> #[trigger] all@[k] == k,
        all@.to_set() == upto(n as nat),
{
    let mut all: Vec<usize> = Vec::new();
    let mut i: usize = 0;
    while i < n
        invariant
            i <= n,
            all.len() == i,
            forall|k: int| 0 <= k < i ==> #[trigger] all@[k] == k,
        decreases n - i,
    {
        all.push(i);
        i = i + 1;
    }
    proof {
        assert forall|x: usize| all@.to_set().contains(x) <==> upto(n as nat).contains(x) by {
            if upto(n as nat).contains(x) {
                assert(all@[x as int] == x);
            }
        }
        assert(all@.to_set() =~= upto(n as nat));
    }
    all
}

/// The plan that competes with the carried one. Counts the effort.
fn compete(all: Vec<Group>, costs: &Costs, now: u64, stats: &mut Stats) -> (groups: Vec<Group>)
    requires
        all.len() > 0,
        priced(*costs, all@),
        on_time(costs@, teams(all@), now),
        made_of(costs@, now, teams(all@), greedy(costs@, now, teams(all@))),
    ensures
        teams(groups@) == alternative(costs@, now, teams(all@)),
        rosters(groups@) == alternative_lists(costs@, now, teams(all@), rosters(all@)),
        priced(*costs, groups@),
        *final(stats) == competed(*old(stats), costs@, now, teams(all@)),
{
    let ghost crew = teams(all@);
    let ghost s = shapes(crew);
    proof {
        lemma_wrapping_zero(stats.search_nodes);
        lemma_wrapping_zero(stats.search_budget_exhaustions);
        lemma_wrapping_zero(stats.exact_searches);
        lemma_wrapping_zero(stats.bounded_searches);
    }
    let list: Vec<usize> = positions(all.len());
    let everybody: Group = join_listed(&all, &list, costs);
    assert(everybody@.shape == total(s));
    let fits: bool = match costs.latest(&everybody.checks, everybody.deadline) {
        Some(latest) => latest >= now,
        None => false,
    };
    if fits {
        let groups: Vec<Group> = vec![everybody];
        assert(teams(groups@) =~= alternative(costs@, now, crew));
        proof {
            lemma_ascending_unique(list@, upto(crew.len()));
            assert(rosters(groups@) =~= alternative_lists(costs@, now, crew, rosters(all@)));
        }
        groups
    } else if all.len() <= EXACT_PATTERN_LIMIT {
        stats.exact_searches = stats.exact_searches.wrapping_add(1);
        proof {
            assert forall|i: int| 0 <= i < all.len() implies costs@.fits(
                (#[trigger] all@[i])@.shape,
                now,
            ) by {
                assert(costs@.fits(crew[i].shape, now));
            }
        }
        exact_partition(&all, costs, now)
    } else {
        stats.bounded_searches = stats.bounded_searches.wrapping_add(1);
        let mut first: Vec<Group> = Vec::new();
        let incoming: Vec<Group> = clone_groups(&all);
        proof {
            assert(teams(incoming@) =~= crew);
            assert(rosters(incoming@) =~= rosters(all@));
            assert(teams(first@) =~= Seq::<Team>::empty());
            assert(rosters(first@) =~= Seq::<Seq<usize>>::empty());
            assert forall|i: int| 0 <= i < incoming.len() implies costs@.latest(
                (#[trigger] incoming@[i])@.shape,
            ) >= 0 by {
                assert(teams(incoming@)[i] == incoming@[i]@);
                assert(costs@.fits(crew[i].shape, now));
            }
            assert forall|i: int| 0 <= i < incoming.len() implies costs.covers(
                (#[trigger] incoming@[i]).checks,
            ) by {
                assert(costs.covers(all@[i].checks));
            }
        }
        insert(&mut first, incoming, costs, now);
        improve(&all, costs, now, first, stats)
    }
}

/// Copies of the batches.
fn clone_groups(groups: &Vec<Group>) -> (copies: Vec<Group>)
    ensures
        copies.len() == groups.len(),
        forall|i: int|
            0 <= i < copies.len() ==> (#[trigger] copies@[i]).checks.0@ == groups@[i].checks.0@
                && copies@[i]@ == groups@[i]@ && copies@[i].members@ == groups@[i].members@,
{
    let mut copies: Vec<Group> = Vec::new();
    let mut i: usize = 0;
    while i < groups.len()
        invariant
            i <= groups.len(),
            copies.len() == i,
            forall|k: int|
                0 <= k < i ==> (#[trigger] copies@[k]).checks.0@ == groups@[k].checks.0@
                    && copies@[k]@ == groups@[k]@ && copies@[k].members@ == groups@[k].members@,
        decreases groups.len() - i,
    {
        copies.push(groups[i].clone());
        i = i + 1;
    }
    copies
}

pub proof fn lemma_wrapping_zero(x: usize)
    ensures
        x.wrapping_add(0) == x,
{
}

/// The plan for the waiting jobs. Counts the effort.
pub fn plan(
    pending: &BTreeMap<usize, Pending>,
    previous: &Vec<Group>,
    costs: &Costs,
    now: u64,
    policy: Policy,
    stats: &mut Stats,
) -> (groups: Vec<Group>)
    requires
        filed(pending@),
        payable(*costs, pending@),
        ready(costs@, now, items(pending@), teams(previous@)),
    ensures
        teams(groups@) == plan_of(costs@, now, policy, items(pending@), teams(previous@)),
        rosters(groups@) == plan_lists(
            costs@,
            now,
            policy,
            items(pending@),
            teams(previous@),
            rosters(previous@),
        ),
        priced(*costs, groups@),
        *final(stats) == old(stats).after(
            effort(costs@, now, policy, items(pending@), teams(previous@)),
        ),
{
    let ghost it = items(pending@);
    let ghost rates = costs@;
    proof {
        reveal(plan_of);
        reveal(plan_lists);
        reveal(effort);
        assert(it.dom() =~= pending@.dom());
        lemma_carried(rates, now, it, teams(previous@));
        lemma_all(rates, now, it);
        lemma_kept(it, teams(previous@));
        lemma_wrapping_zero(stats.search_nodes);
        lemma_wrapping_zero(stats.search_budget_exhaustions);
        lemma_wrapping_zero(stats.exact_searches);
        lemma_wrapping_zero(stats.bounded_searches);
    }
    stats.planning_calls = stats.planning_calls.wrapping_add(1);
    // Retain assignments for jobs that were not absorbed by an earlier launch.
    // Removing members only shrinks work and relaxes the group's deadline.
    let (kept_groups, assigned) = retain(pending, previous, costs);
    let mut stable: Vec<Group> = kept_groups;
    let everyone: Vec<usize> = tokens(pending);
    let others: Vec<usize> = unassigned(&everyone, &assigned);
    let incoming: Vec<Group> = patterns(pending, &others);
    proof {
        lemma_pattern_groups(*costs, pending@, others@.to_set(), incoming@, now);
        lemma_ascending_unique(others@, others@.to_set());
    }
    insert(&mut stable, incoming, costs, now);
    assert(teams(stable@) == carried(rates, now, it, teams(previous@)));
    assert(rosters(stable@) == carried_lists(
        rates,
        now,
        it,
        teams(previous@),
        rosters(previous@),
    ));
    proof {
        lemma_no_duplicates(everyone@);
    }
    let all: Vec<Group> = patterns(pending, &everyone);
    let ghost crew = teams(all@);
    proof {
        lemma_pattern_groups(*costs, pending@, everyone@.to_set(), all@, now);
        assert(crew == pattern_teams(it, it.dom()));
        assert(crew.len() == all.len());
    }
    if stats.peak_pending_patterns <= all.len() {
        stats.peak_pending_patterns = all.len();
    }
    if stable.len() <= 1 {
        return stable;
    }
    proof {
        assert(teams(stable@).len() == stable.len());
        lemma_seconds_fit(rates, teams(stable@), now);
        let t = choose|t: usize| #[trigger] crews(teams(stable@))[0].contains(t);
        assert(inhabited(crews(teams(stable@))[0]));
        assert(it.dom().contains(t));
        lemma_alternative_sound(rates, now, it);
    }
    let old_score: (usize, u128) = score(&stable, costs);
    let bound: (usize, u128) = lower_bound(&all, costs, now);
    if old_score.0 == bound.0 && old_score.1 == bound.1 {
        return stable;
    }
    if policy == Policy::Count && old_score.0 == bound.0 {
        return stable;
    }
    let rival: Vec<Group> = compete(all, costs, now, stats);
    proof {
        assert(teams(rival@).len() == rival.len());
        lemma_seconds_fit(rates, teams(rival@), now);
    }
    let new_score: (usize, u128) = score(&rival, costs);
    // Equal-cost rearrangements have no demonstrated benefit and can change
    // future launch opportunities. Keep the incumbent rather than churning.
    let better: bool = match policy {
        Policy::Cost => new_score.0 < old_score.0 || new_score.0 == old_score.0 && new_score.1
            < old_score.1,
        Policy::Count => new_score.0 < old_score.0,
    };
    if better {
        rival
    } else {
        stable
    }
}

/// The competing plan can wait until `now`.
proof fn lemma_alternative_sound(rates: Rates, now: u64, items: Map<usize, Shape>)
    requires
        items.dom().finite(),
        items.dom().len() <= usize::MAX,
        inhabited(items.dom()),
        forall|t: usize| #[trigger] items.contains_key(t) ==> rates.fits(items[t], now),
    ensures
        on_time(rates, alternative(rates, now, pattern_teams(items, items.dom())), now),
        made_of(
            rates,
            now,
            pattern_teams(items, items.dom()),
            greedy(rates, now, pattern_teams(items, items.dom())),
        ),
{
    let all = pattern_teams(items, items.dom());
    let parts = lemma_alternative(rates, now, items);
    let made = alternative(rates, now, all);
    assert forall|i: int| 0 <= i < made.len() implies rates.fits(
        (#[trigger] made[i]).shape,
        now,
    ) by {
        assert(made[i] == bundle(all, parts[i]));
    }
}

proof fn lemma_no_duplicates(q: Seq<usize>)
    requires
        increasing(q),
    ensures
        q.no_duplicates(),
{
    assert forall|i: int, j: int| 0 <= i < q.len() && 0 <= j < q.len() && i != j implies q[i]
        != q[j] by {
        if i < j {
            assert(q[i] < q[j]);
        } else {
            assert(q[j] < q[i]);
        }
    }
}

/// Patterns of waiting jobs hold only checks with a known cost, and can run alone.
proof fn lemma_pattern_groups(
    costs: Costs,
    pending: Map<usize, Pending>,
    tokens: Set<usize>,
    groups: Seq<Group>,
    now: u64,
)
    requires
        payable(costs, pending),
        pending.dom().finite(),
        tokens.subset_of(pending.dom()),
        teams(groups) == pattern_teams(items(pending), tokens),
        forall|i: int| 0 <= i < groups.len() ==> (#[trigger] groups[i]).checks.wf(),
        forall|t: usize| #[trigger]
            items(pending).contains_key(t) ==> costs@.fits(items(pending)[t], now),
    ensures
        priced(costs, groups),
        on_time(costs@, teams(groups), now),
        forall|i: int| 0 <= i < groups.len() ==> costs@.latest((#[trigger] groups[i])@.shape) >= 0,
{
    let it = items(pending);
    vstd::set_lib::lemma_set_subset_finite(pending.dom(), tokens);
    lemma_patterns_arrange(it, tokens);
    assert forall|t: usize| #[trigger] tokens.contains(t) implies costs@.fits(it[t], now) by {
        assert(it.contains_key(t));
    }
    lemma_patterns_on_time(costs@, it, tokens, now);
    assert forall|i: int| 0 <= i < groups.len() implies costs.covers((#[trigger] groups[i]).checks)
        && costs@.latest(groups[i]@.shape) >= 0 by {
        let team = teams(groups)[i];
        assert(team == groups[i]@);
        assert(crews(teams(groups))[i] == team.members);
        assert(team.members.subset_of(pending.dom())) by {
            assert forall|t: usize| team.members.contains(t) implies pending.dom().contains(t) by {
                assert(crews(teams(groups))[i].contains(t));
            }
        }
        lemma_team_covered(costs, pending, groups[i], team.members);
        assert(costs@.fits(team.shape, now));
    }
}

} // verus!
