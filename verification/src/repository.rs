//! One repository: its waiting jobs, their plan, and launching what is due.
use std::collections::BTreeMap;

use vstd::prelude::*;

use crate::checks::{increasing, Checks, Costs};
use crate::group::{
    filed, items, lemma_team_covered, live, payable, priced, rosters, summarize, teams, tokens,
    Group, Pending,
};
use crate::lane::{
    ahead, due, due_order, fired, lemma_ahead_orders, satisfied, shot, volley, Launch, Repo, Rules,
};
use crate::lane_laws::{lemma_due, lemma_live, lemma_volley, sound_plan};
use crate::listing::{lemma_listing_unique, lists};
use crate::partition::{first_start, inhabited};
use crate::plan::ready;
use crate::planner;
use crate::policy::{Policy, Stats};
use crate::roster::plan_lists;
use crate::search::lemma_lists_insert;
use crate::shape::gather;
use crate::team::{crews, shapes};

verus! {

/// A repository with waiting jobs.
#[derive(Debug)]
pub struct Repository {
    pub pending: BTreeMap<usize, Pending>,
    pub plan: Vec<Group>,
    pub wake: Option<u64>,
}

impl View for Repository {
    type V = Repo;

    open spec fn view(&self) -> Repo {
        Repo { items: items(self.pending@), plan: teams(self.plan@), wake: self.wake }
    }
}

impl Repository {
    pub open spec fn wf(self, costs: Costs) -> bool {
        &&& filed(self.pending@)
        &&& payable(costs, self.pending@)
        &&& priced(costs, self.plan@)
    }
}

/// A launched batch as listed: its tokens in increasing order.
pub open spec fn launch_of(entry: (u64, Vec<usize>)) -> Launch {
    Launch { at: entry.0, jobs: entry.1@.to_set() }
}

pub open spec fn launches_of(entries: Seq<(u64, Vec<usize>)>) -> Seq<Launch> {
    entries.map_values(|entry: (u64, Vec<usize>)| launch_of(entry))
}

/// The tokens of each launch are in increasing order.
pub open spec fn tidy_entries(entries: Seq<(u64, Vec<usize>)>) -> bool {
    forall|i: int| 0 <= i < entries.len() ==> increasing((#[trigger] entries[i]).1@)
}

/// The batches that must start now, in launching order.
fn due_groups(plan: &Vec<Group>, costs: &Costs, now: u64) -> (order: Vec<usize>)
    requires
        priced(*costs, plan@),
        forall|i: int|
            0 <= i < plan.len() ==> costs@.latest((#[trigger] plan@[i])@.shape) >= 0,
    ensures
        order@ == due_order(costs@, now, teams(plan@)),
{
    let ghost all = teams(plan@);
    let ghost lt = |a: usize, b: usize| ahead(all, a, b);
    let ghost d = due(costs@, now, all);
    let mut order: Vec<usize> = Vec::new();
    let mut i: usize = 0;
    assert(order@.to_set() =~= d.filter(|x: usize| x < 0));
    while i < plan.len()
        invariant
            priced(*costs, plan@),
            forall|i: int|
                0 <= i < plan.len() ==> costs@.latest((#[trigger] plan@[i])@.shape) >= 0,
            all == teams(plan@),
            lt == (|a: usize, b: usize| ahead(all, a, b)),
            d == due(costs@, now, all),
            i <= plan.len(),
            lists(order@, d.filter(|x: usize| x < i), lt),
            forall|k: int| 0 <= k < order.len() ==> (#[trigger] order@[k]) < i,
        decreases plan.len() - i,
    {
        let ghost before = d.filter(|x: usize| x < i);
        let ghost after = d.filter(|x: usize| x < i + 1);
        assert(all[i as int] == plan@[i as int]@);
        if plan[i].latest(costs) == now {
            let mut place: usize = order.len();
            while place > 0 && plan[i].checks.precedes(&plan[order[place - 1]].checks)
                invariant
                    priced(*costs, plan@),
                    all == teams(plan@),
                    i < plan.len(),
                    place <= order.len(),
                    forall|k: int| 0 <= k < order.len() ==> (#[trigger] order@[k]) < i,
                    forall|k: int|
                        place <= k < order.len() ==> ahead(all, i, #[trigger] order@[k]),
                decreases place,
            {
                proof {
                    let o = order@[place - 1];
                    assert(all[o as int] == plan@[o as int]@);
                    assert(all[i as int] == plan@[i as int]@);
                }
                place = place - 1;
            }
            let ghost q = order@;
            proof {
                assert forall|k: int| 0 <= k < place implies lt(#[trigger] q[k], i) by {
                    let o = q[place - 1];
                    assert(all[o as int] == plan@[o as int]@);
                    if all[o as int].shape.checks != all[i as int].shape.checks {
                        crate::bits::lemma_bits_total(
                            all[o as int].shape.checks,
                            all[i as int].shape.checks,
                        );
                    }
                    assert(lt(o, i));
                    if k < place - 1 {
                        assert(lt(q[k], o));
                        lemma_ahead_orders(all, Set::new(|x: usize| true));
                        let whole: Set<usize> = Set::new(|x: usize| true);
                        assert(whole.contains(q[k]) && whole.contains(o) && whole.contains(i));
                    }
                }
                lemma_lists_insert(q, before, lt, place as int, i);
                assert(after =~= before.insert(i));
            }
            order.insert(place, i);
            proof {
                assert forall|k: int| 0 <= k < order@.len() implies (#[trigger] order@[k])
                    < i + 1 by {
                    if k < place {
                        assert(order@[k] == q[k]);
                    } else if k > place {
                        assert(order@[k] == q[k - 1]);
                    }
                }
            }
        } else {
            assert(after =~= before);
        }
        i = i + 1;
    }
    proof {
        assert(d.filter(|x: usize| x < i) =~= d);
        lemma_due(costs@, now, all);
        lemma_ahead_orders(all, d);
        lemma_listing_unique(order@, d, lt);
    }
    order
}

/// The waiting jobs that a batch with these checks, launched now, satisfies.
fn takers(pending: &BTreeMap<usize, Pending>, checks: &Checks, costs: &Costs, now: u64) -> (take: Vec<
    usize,
>)
    requires
        filed(pending@),
        costs.covers(*checks),
        costs@.duration(checks@) <= u64::MAX,
    ensures
        increasing(take@),
        take@.to_set() == satisfied(costs@, now, items(pending@), checks@),
{
    let finish: u128 = now as u128 + costs.duration(checks);
    let all: Vec<usize> = tokens(pending);
    let ghost goal = satisfied(costs@, now, items(pending@), checks@);
    let mut take: Vec<usize> = Vec::new();
    let mut i: usize = 0;
    assert(take@.to_set() =~= goal.intersect(all@.take(0).to_set()));
    while i < all.len()
        invariant
            filed(pending@),
            checks.wf(),
            finish == now + costs@.duration(checks@),
            all@.to_set() == pending@.dom(),
            increasing(all@),
            goal == satisfied(costs@, now, items(pending@), checks@),
            i <= all.len(),
            increasing(take@),
            take@.to_set() == goal.intersect(all@.take(i as int).to_set()),
            forall|k: int|
                0 <= k < take.len() && i < all.len() ==> (#[trigger] take@[k]) < all@[i as int],
        decreases all.len() - i,
    {
        let token: usize = all[i];
        let ghost before = take@;
        proof {
            assert(all@.to_set().contains(token));
            assert(pending@.contains_key(token));
            assert(all@.take(i + 1) =~= all@.take(i as int).push(token));
            all@.take(i as int).lemma_push_to_set_commute(token);
            if i + 1 < all.len() {
                assert(all@[i as int] < all@[i + 1]);
            }
            assert(items(pending@)[token] == pending@[token]@);
        }
        if let Some(job) = pending.get(&token) {
            // These jobs add no checks to this batch. Removing them from
            // other tentative groups can only make those groups easier
            // to finish; no launched batch is being modified.
            if job.checks.is_subset(checks) && finish <= job.deadline as u128 {
                take.push(token);
                proof {
                    before.lemma_push_to_set_commute(token);
                    assert(goal.contains(token));
                }
            }
        }
        assert(take@.to_set() =~= goal.intersect(all@.take(i + 1).to_set()));
        i = i + 1;
    }
    proof {
        assert(all@.take(i as int) =~= all@);
        assert(goal.intersect(pending@.dom()) =~= goal);
    }
    take
}

/// Takes the listed jobs out of the waiting ones.
fn take_out(pending: &mut BTreeMap<usize, Pending>, take: &Vec<usize>)
    ensures
        final(pending)@ == old(pending)@.remove_keys(take@.to_set()),
{
    let ghost start = pending@;
    let mut i: usize = 0;
    assert(start.remove_keys(take@.take(0).to_set()) =~= start);
    while i < take.len()
        invariant
            i <= take.len(),
            pending@ == start.remove_keys(take@.take(i as int).to_set()),
        decreases take.len() - i,
    {
        let token: usize = take[i];
        let _ = pending.remove(&token);
        proof {
            assert(take@.take(i + 1) =~= take@.take(i as int).push(token));
            take@.take(i as int).lemma_push_to_set_commute(token);
            assert(pending@ =~= start.remove_keys(take@.take(i + 1).to_set()));
        }
        i = i + 1;
    }
    assert(take@.take(i as int) =~= take@);
}

impl Repository {
    /// Launches everything that is due.
    pub fn launch(&mut self, costs: &Costs, now: u64, launches: &mut Vec<(u64, Vec<usize>)>)
        requires
            old(self).wf(*costs),
            sound_plan(costs@, now, old(self)@.items, old(self)@.plan),
            tidy_entries(old(launches)@),
        ensures
            final(self).wf(*costs),
            final(self)@ == (Repo { items: fired(costs@, now, old(self)@).0, ..old(self)@ }),
            final(self).plan@ == old(self).plan@,
            launches_of(final(launches)@) == launches_of(old(launches)@) + fired(
                costs@,
                now,
                old(self)@,
            ).1,
            tidy_entries(final(launches)@),
    {
        let ghost rates = costs@;
        let ghost was = self@;
        let ghost all = was.plan;
        let ghost start = launches_of(launches@);
        proof {
            assert forall|i: int| 0 <= i < self.plan.len() implies rates.latest(
                (#[trigger] self.plan@[i])@.shape,
            ) >= 0 by {
                assert(rates.fits(all[i].shape, now));
            }
            crate::partition::lemma_splits_len(crews(all), was.items.dom());
            crate::partition::lemma_splits_finite(crews(all), was.items.dom());
            lemma_due(rates, now, all);
        }
        let order: Vec<usize> = due_groups(&self.plan, costs, now);
        let mut k: usize = 0;
        assert(launches_of(launches@) =~= start + Seq::<Launch>::empty());
        while k < order.len()
            invariant
                rates == costs@,
                self.wf(*costs),
                self.plan@ == old(self).plan@,
                self.wake == old(self).wake,
                was == old(self)@,
                all == was.plan,
                all == teams(self.plan@),
                sound_plan(rates, now, was.items, all),
                forall|i: int| 0 <= i < all.len() ==> (#[trigger] crews(all)[i]).finite(),
                order@ == due_order(rates, now, all),
                forall|i: int| 0 <= i < order.len() ==> (#[trigger] order@[i]) < all.len(),
                forall|i: int|
                    0 <= i < order.len() ==> rates.latest(all[(#[trigger] order@[i]) as int].shape)
                        == now,
                k <= order.len(),
                items(self.pending@) == volley(rates, now, was.items, all, order@, k as nat).0,
                launches_of(launches@) == start + volley(
                    rates,
                    now,
                    was.items,
                    all,
                    order@,
                    k as nat,
                ).1,
                tidy_entries(launches@),
            decreases order.len() - k,
        {
            let ghost left = items(self.pending@);
            let ghost shots = volley(rates, now, was.items, all, order@, k as nat).1;
            let ghost team = all[order@[k as int] as int];
            let members: &Vec<usize> = &self.plan[order[k]].members;
            proof {
                lemma_volley(rates, now, was.items, all, order@, k as nat);
                assert(team == self.plan@[order@[k as int] as int]@);
                assert(crews(all)[order@[k as int] as int] == team.members);
                assert(team.shape == gather(was.items, team.members));
                lemma_live(rates, was.items, left, team.members);
                assert(live(self.pending@, members@.to_set()) =~= team.members.intersect(
                    left.dom(),
                ));
            }
            // An earlier simultaneous launch may have satisfied members of
            // this group for free. Recompute its actual work and urgency.
            if let Some(group) = summarize(&self.pending, members) {
                proof {
                    lemma_team_covered(
                        *costs,
                        self.pending@,
                        group,
                        live(self.pending@, members@.to_set()),
                    );
                }
                if group.latest(costs) <= now {
                    let take: Vec<usize> = takers(&self.pending, &group.checks, costs, now);
                    let ghost jobs = take@.to_set();
                    let ghost pending = self.pending@;
                    let ghost entries = launches@;
                    take_out(&mut self.pending, &take);
                    proof {
                        assert(shot(rates, now, left, team.members) == Some(jobs));
                        assert(items(self.pending@) =~= left.remove_keys(jobs));
                        assert(self.pending@.dom().subset_of(pending.dom()));
                        vstd::set_lib::lemma_set_subset_finite(
                            pending.dom(),
                            self.pending@.dom(),
                        );
                        assert forall|t: usize| #[trigger]
                            self.pending@.contains_key(t) implies self.pending@[t].token == t
                            && self.pending@[t].checks.wf() && costs.covers(
                            self.pending@[t].checks,
                        ) by {
                            assert(pending.contains_key(t));
                        }
                    }
                    launches.push((now, take));
                    proof {
                        assert(launches_of(launches@) =~= launches_of(entries).push(
                            Launch { at: now, jobs },
                        ));
                        assert(start + shots.push(Launch { at: now, jobs }) =~= (start
                            + shots).push(Launch { at: now, jobs }));
                    }
                }
            }
            k = k + 1;
        }
    }

    /// Plans the waiting jobs anew, and sets the timer for the first batch.
    pub fn replan(&mut self, costs: &Costs, now: u64, policy: Policy, stats: &mut Stats)
        requires
            old(self).wf(*costs),
            ready(costs@, now, old(self)@.items, old(self)@.plan),
            inhabited(old(self)@.items.dom()),
        ensures
            final(self).wf(*costs),
            ({
                let rules = Rules { rates: costs@, policy };
                &&& rules.planned(now, old(self)@) == Some(final(self)@)
                &&& *final(stats) == old(stats).after(rules.effort(now, old(self)@))
            }),
            rosters(final(self).plan@) == plan_lists(
                costs@,
                now,
                policy,
                old(self)@.items,
                old(self)@.plan,
                rosters(old(self).plan@),
            ),
    {
        let ghost rules = Rules { rates: costs@, policy };
        proof {
            crate::lane_laws::lemma_planned(rules, now, self@);
        }
        self.plan = planner::plan(&self.pending, &self.plan, costs, now, policy, stats);
        let ghost made = teams(self.plan@);
        proof {
            assert forall|i: int| 0 <= i < self.plan.len() implies costs@.latest(
                (#[trigger] self.plan@[i])@.shape,
            ) >= 0 by {
                let next = rules.planned(now, old(self)@)->0;
                assert(next.plan == made);
                assert(costs@.fits(made[i].shape, next.wake->0));
            }
        }
        let wake: u64 = first_wake(&self.plan, costs);
        self.wake = Some(wake);
    }
}

/// When the first of the batches must start.
fn first_wake(plan: &Vec<Group>, costs: &Costs) -> (wake: u64)
    requires
        priced(*costs, plan@),
        forall|i: int|
            0 <= i < plan.len() ==> costs@.latest((#[trigger] plan@[i])@.shape) >= 0,
    ensures
        wake == first_start(costs@, shapes(teams(plan@))),
{
    let ghost s = shapes(teams(plan@));
    let mut wake: u64 = u64::MAX;
    let mut i: usize = 0;
    while i < plan.len()
        invariant
            priced(*costs, plan@),
            forall|i: int|
                0 <= i < plan.len() ==> costs@.latest((#[trigger] plan@[i])@.shape) >= 0,
            s == shapes(teams(plan@)),
            i <= plan.len(),
            wake == first_start(costs@, s.take(i as int)),
        decreases plan.len() - i,
    {
        proof {
            assert(s.take(i + 1).drop_last() =~= s.take(i as int));
            assert(s.take(i + 1).last() == plan@[i as int]@.shape);
        }
        let start: u64 = plan[i].latest(costs);
        if start <= wake {
            wake = start;
        }
        i = i + 1;
    }
    assert(s.take(i as int) =~= s);
    wake
}

} // verus!
