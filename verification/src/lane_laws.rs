//! Launches in one repository are on time, start as late as they can, and leave a plan
//! that can be carried on.
use vstd::prelude::*;

use crate::lane::{
    ahead, due, due_order, fired, lemma_ahead_orders, shot, volley, Launch, Repo, Rules,
};
use crate::listing::{lemma_listing, lemma_upto, upto};
use crate::partition::{first_start, inhabited, lemma_first_start};
use crate::plan::{kept, plan, ready};
use crate::plan_best::lemma_plan;
use crate::plan_laws::lemma_arranged_apart;
use crate::shape::{
    gather, lemma_gather_agree, lemma_gather_one, lemma_gather_shrinks, lemma_gather_urgent, Rates,
    Shape,
};
use crate::team::{arranges, crews, on_time, shapes, team_of, Team};

verus! {

/// The plan divides the waiting jobs, and can wait until `now`.
pub open spec fn sound_plan(rates: Rates, now: u64, items: Map<usize, Shape>, plan: Seq<Team>) -> bool {
    &&& items.dom().finite()
    &&& items.dom().len() <= usize::MAX
    &&& arranges(items, plan, items.dom())
    &&& on_time(rates, plan, now)
}

/// A job waits, the plan is sound, and the timer is set for the first batch.
pub open spec fn steady(rates: Rates, repo: Repo) -> bool {
    &&& inhabited(repo.items.dom())
    &&& repo.wake is Some
    &&& repo.wake->0 == first_start(rates, shapes(repo.plan))
    &&& sound_plan(rates, repo.wake->0, repo.items, repo.plan)
}

/// A launched batch starts exactly when it must: any later, and one of its jobs would
/// miss its deadline.
pub open spec fn timely(rates: Rates, items: Map<usize, Shape>, launch: Launch) -> bool {
    &&& inhabited(launch.jobs)
    &&& launch.jobs.finite()
    &&& rates.latest(gather(items, launch.jobs)) == launch.at
}

/// Every job is left, or in one launch.
pub open spec fn cleared(
    rates: Rates,
    now: u64,
    items: Map<usize, Shape>,
    left: Map<usize, Shape>,
    launches: Seq<Launch>,
) -> bool {
    &&& forall|t: usize| #[trigger]
        left.contains_key(t) ==> items.contains_key(t) && left[t] == items[t]
    &&& forall|i: int|
        0 <= i < launches.len() ==> (#[trigger] launches[i]).at == now && timely(
            rates,
            items,
            launches[i],
        )
    &&& forall|i: int, t: usize|
        0 <= i < launches.len() && #[trigger] launches[i].jobs.contains(t) ==> items.contains_key(t)
            && !left.contains_key(t)
    &&& forall|i: int, j: int, t: usize|
        0 <= i < launches.len() && 0 <= j < launches.len() && #[trigger] launches[i].jobs.contains(
            t,
        ) && #[trigger] launches[j].jobs.contains(t) ==> i == j
    &&& forall|t: usize|
        items.contains_key(t) && !#[trigger] left.contains_key(t) ==> exists|i: int|
            0 <= i < launches.len() && #[trigger] launches[i].jobs.contains(t)
}

/// What is left of a batch can wait at least as long as the batch.
pub proof fn lemma_live(
    rates: Rates,
    items: Map<usize, Shape>,
    left: Map<usize, Shape>,
    members: Set<usize>,
)
    requires
        members.finite(),
        forall|t: usize| #[trigger] left.contains_key(t) ==> left[t] == items[t],
    ensures
        gather(left, members.intersect(left.dom())) == gather(
            items,
            members.intersect(left.dom()),
        ),
        rates.latest(gather(items, members)) <= rates.latest(
            gather(left, members.intersect(left.dom())),
        ),
        members.intersect(left.dom()).finite(),
{
    let live = members.intersect(left.dom());
    assert(live.subset_of(members));
    vstd::set_lib::lemma_set_subset_finite(members, live);
    assert forall|t: usize| #[trigger] live.contains(t) implies left[t] == items[t] by {
        assert(left.contains_key(t));
    }
    lemma_gather_agree(left, items, live);
    lemma_gather_shrinks(rates, items, live, members);
}

/// A launched batch starts exactly when it must, and does what its members ask for.
pub proof fn lemma_shot(rates: Rates, now: u64, items: Map<usize, Shape>, members: Set<usize>)
    requires
        items.dom().finite(),
        shot(rates, now, items, members) is Some,
        rates.latest(gather(items, members.intersect(items.dom()))) >= now,
    ensures
        shot(rates, now, items, members)->0.subset_of(items.dom()),
        timely(rates, items, (Launch { at: now, jobs: shot(rates, now, items, members)->0 })),
        members.intersect(items.dom()).subset_of(shot(rates, now, items, members)->0),
        gather(items, shot(rates, now, items, members)->0).checks == gather(
            items,
            members.intersect(items.dom()),
        ).checks,
{
    let live = members.intersect(items.dom());
    let team = gather(items, live);
    let jobs = shot(rates, now, items, members)->0;
    assert(live.subset_of(items.dom()));
    vstd::set_lib::lemma_set_subset_finite(items.dom(), live);
    assert(jobs.subset_of(items.dom()));
    vstd::set_lib::lemma_set_subset_finite(items.dom(), jobs);
    let u = choose|u: usize| #[trigger] live.contains(u);
    assert(live.contains(u));
    lemma_gather_urgent(items, live);
    assert forall|t: usize| live.contains(t) implies jobs.contains(t) by {}
    assert(jobs.contains(u));
    lemma_gather_urgent(items, jobs);
    lemma_gather_shrinks(rates, items, live, jobs);
    let whole = gather(items, jobs);
    assert forall|c: usize| whole.checks.contains(c) implies team.checks.contains(c) by {
        let t = choose|t: usize| #[trigger] jobs.contains(t) && items[t].checks.contains(c);
        assert(items[t].checks.subset_of(team.checks));
    }
    assert(whole.checks =~= team.checks);
    let t = choose|t: usize| #[trigger] jobs.contains(t) && items[t].deadline == whole.deadline;
    assert(jobs.contains(t));
}

/// What a volley leaves and launches.
pub proof fn lemma_volley(
    rates: Rates,
    now: u64,
    items: Map<usize, Shape>,
    plan: Seq<Team>,
    order: Seq<usize>,
    k: nat,
)
    requires
        sound_plan(rates, now, items, plan),
        k <= order.len(),
        forall|i: int| 0 <= i < order.len() ==> (#[trigger] order[i]) < plan.len(),
        forall|i: int|
            0 <= i < order.len() ==> rates.latest(plan[(#[trigger] order[i]) as int].shape) == now,
    ensures
        cleared(
            rates,
            now,
            items,
            volley(rates, now, items, plan, order, k).0,
            volley(rates, now, items, plan, order, k).1,
        ),
        volley(rates, now, items, plan, order, k).0.dom().finite(),
        volley(rates, now, items, plan, order, k).0.dom().subset_of(items.dom()),
        k > 0 ==> volley(rates, now, items, plan, order, k).1.len() > 0,
    decreases k,
{
    let (left, launches) = volley(rates, now, items, plan, order, k);
    if k > 0 {
        let (before, earlier) = volley(rates, now, items, plan, order, (k - 1) as nat);
        lemma_volley(rates, now, items, plan, order, (k - 1) as nat);
        let team = plan[order[k - 1] as int];
        assert(crews(plan)[order[k - 1] as int] == team.members);
        crate::partition::lemma_splits_finite(crews(plan), items.dom());
        lemma_live(rates, items, before, team.members);
        let live = team.members.intersect(before.dom());
        match shot(rates, now, before, team.members) {
            Some(jobs) => {
                lemma_shot(rates, now, before, team.members);
                let n = earlier.len() as int;
                assert(left.dom() =~= before.dom().difference(jobs));
                assert(left.dom().subset_of(before.dom()));
                vstd::set_lib::lemma_set_subset_finite(before.dom(), left.dom());
                vstd::set_lib::lemma_set_subset_finite(before.dom(), jobs);
                assert forall|t: usize| #[trigger] jobs.contains(t) implies before[t]
                    == items[t] by {
                    assert(before.contains_key(t));
                }
                lemma_gather_agree(before, items, jobs);
                assert forall|i: int| 0 <= i < launches.len() implies (#[trigger] launches[i]).at
                    == now && timely(rates, items, launches[i]) by {
                    if i < n {
                        assert(launches[i] == earlier[i]);
                    }
                }
                assert forall|i: int, t: usize|
                    0 <= i < launches.len() && #[trigger] launches[i].jobs.contains(
                        t,
                    ) implies items.contains_key(t) && !left.contains_key(t) by {
                    if i < n {
                        assert(earlier[i].jobs.contains(t));
                    } else {
                        assert(jobs.contains(t));
                        assert(before.contains_key(t));
                    }
                }
                assert forall|i: int, j: int, t: usize|
                    0 <= i < launches.len() && 0 <= j < launches.len()
                        && #[trigger] launches[i].jobs.contains(t)
                        && #[trigger] launches[j].jobs.contains(t) implies i == j by {
                    if i < n {
                        assert(earlier[i].jobs.contains(t));
                    }
                    if j < n {
                        assert(earlier[j].jobs.contains(t));
                    }
                    if i == n || j == n {
                        assert(jobs.contains(t) ==> before.contains_key(t));
                    }
                }
                assert forall|t: usize|
                    items.contains_key(t) && !#[trigger] left.contains_key(t) implies exists|i: int|
                    0 <= i < launches.len() && #[trigger] launches[i].jobs.contains(t) by {
                    if before.contains_key(t) {
                        assert(jobs.contains(t));
                        assert(launches[n].jobs.contains(t));
                    } else {
                        let i = choose|i: int|
                            0 <= i < earlier.len() && #[trigger] earlier[i].jobs.contains(t);
                        assert(launches[i].jobs.contains(t));
                    }
                }
            },
            None => {
                if k == 1 {
                    assert(before == items);
                    assert(inhabited(crews(plan)[order[0] as int]));
                    let t = choose|t: usize| #[trigger] crews(plan)[order[0] as int].contains(t);
                    assert(items.dom().contains(t));
                    assert(live =~= team.members) by {
                        assert forall|t: usize| team.members.contains(t) implies live.contains(
                            t,
                        ) by {
                            assert(crews(plan)[order[0] as int].contains(t));
                        }
                    }
                    assert(live.contains(t));
                    assert(team.shape == gather(items, team.members));
                }
            },
        }
    }
}

/// What is left of a plan comes from its batches.
pub proof fn lemma_kept_from(items: Map<usize, Shape>, previous: Seq<Team>, i: int)
    requires
        0 <= i < kept(items, previous).len(),
    ensures
        exists|j: int|
            0 <= j < previous.len() && kept(items, previous)[i] == team_of(
                items,
                (#[trigger] previous[j]).members.intersect(items.dom()),
            ),
    decreases previous.len(),
{
    let init = previous.drop_last();
    let rest = kept(items, init);
    if i < rest.len() {
        lemma_kept_from(items, init, i);
        let j = choose|j: int|
            0 <= j < init.len() && rest[i] == team_of(
                items,
                (#[trigger] init[j]).members.intersect(items.dom()),
            );
        assert(previous[j] == init[j]);
    } else {
        assert(previous[previous.len() - 1] == previous.last());
    }
}

/// A sound plan can be carried on when some of its jobs are gone.
pub proof fn lemma_still_ready(
    rates: Rates,
    now: u64,
    items: Map<usize, Shape>,
    plan: Seq<Team>,
    left: Map<usize, Shape>,
)
    requires
        sound_plan(rates, now, items, plan),
        left.dom().subset_of(items.dom()),
        forall|t: usize| #[trigger] left.contains_key(t) ==> left[t] == items[t],
    ensures
        ready(rates, now, left, plan),
{
    vstd::set_lib::lemma_set_subset_finite(items.dom(), left.dom());
    vstd::set_lib::lemma_len_subset(left.dom(), items.dom());
    lemma_arranged_apart(items, plan, items.dom());
    crate::partition::lemma_splits_finite(crews(plan), items.dom());
    assert forall|t: usize| #[trigger] left.contains_key(t) implies rates.fits(left[t], now) by {
        assert(items.dom().contains(t));
        let i = choose|i: int| 0 <= i < crews(plan).len() && #[trigger] crews(plan)[i].contains(t);
        assert(plan[i].members == crews(plan)[i]);
        assert(set![t].subset_of(plan[i].members));
        lemma_gather_shrinks(rates, items, set![t], plan[i].members);
        lemma_gather_one(items, t);
        assert(rates.fits(plan[i].shape, now));
    }
    let stay = kept(left, plan);
    assert forall|i: int| 0 <= i < stay.len() implies rates.fits((#[trigger] stay[i]).shape, now) by {
        lemma_kept_from(left, plan, i);
        let j = choose|j: int|
            0 <= j < plan.len() && stay[i] == team_of(
                left,
                (#[trigger] plan[j]).members.intersect(left.dom()),
            );
        assert(crews(plan)[j] == plan[j].members);
        lemma_live(rates, items, left, plan[j].members);
        assert(rates.fits(plan[j].shape, now));
    }
}

/// The due batches are those of the plan that must start now.
pub proof fn lemma_due(rates: Rates, now: u64, plan: Seq<Team>)
    requires
        plan.len() <= usize::MAX,
    ensures
        forall|i: int|
            0 <= i < due_order(rates, now, plan).len() ==> (#[trigger] due_order(
                rates,
                now,
                plan,
            )[i]) < plan.len(),
        forall|i: int|
            0 <= i < due_order(rates, now, plan).len() ==> rates.latest(
                plan[(#[trigger] due_order(rates, now, plan)[i]) as int].shape,
            ) == now,
        due_order(rates, now, plan).to_set() == due(rates, now, plan),
        due_order(rates, now, plan).no_duplicates(),
        due(rates, now, plan).finite(),
{
    let d = due(rates, now, plan);
    let q = due_order(rates, now, plan);
    lemma_upto(plan.len());
    assert(d.subset_of(upto(plan.len())));
    vstd::set_lib::lemma_set_subset_finite(upto(plan.len()), d);
    lemma_ahead_orders(plan, d);
    lemma_listing(d, |a: usize, b: usize| ahead(plan, a, b));
    assert forall|i: int| 0 <= i < q.len() implies (#[trigger] q[i]) < plan.len() && rates.latest(
        plan[q[i] as int].shape,
    ) == now by {
        assert(q.to_set().contains(q[i]));
    }
}

/// Planning anew makes a steady repository that rings no earlier than now.
pub proof fn lemma_planned(rules: Rules, now: u64, repo: Repo)
    requires
        ready(rules.rates, now, repo.items, repo.plan),
        inhabited(repo.items.dom()),
    ensures
        rules.planned(now, repo) is Some,
        steady(rules.rates, rules.planned(now, repo)->0),
        rules.planned(now, repo)->0.items == repo.items,
        now <= rules.planned(now, repo)->0.wake->0,
{
    let rates = rules.rates;
    let made = plan(rates, now, rules.policy, repo.items, repo.plan);
    lemma_plan(rates, now, rules.policy, repo.items, repo.plan);
    let s = shapes(made);
    lemma_first_start(rates, s);
    let i = choose|i: int| 0 <= i < s.len() && first_start(rates, s) == rates.latest(#[trigger] s[i]);
    assert(rates.fits(made[i].shape, now));
    let wake = first_start(rates, s) as u64;
    assert forall|i: int| 0 <= i < made.len() implies rates.fits((#[trigger] made[i]).shape, wake) by {
        assert(s[i] == made[i].shape);
    }
}

/// Everything that happens when a timer rings.
pub proof fn lemma_fired(rules: Rules, repo: Repo)
    requires
        steady(rules.rates, repo),
    ensures
        cleared(
            rules.rates,
            repo.wake->0,
            repo.items,
            fired(rules.rates, repo.wake->0, repo).0,
            fired(rules.rates, repo.wake->0, repo).1,
        ),
        fired(rules.rates, repo.wake->0, repo).1.len() > 0,
        fired(rules.rates, repo.wake->0, repo).0.dom().subset_of(repo.items.dom()),
        ready(
            rules.rates,
            repo.wake->0,
            fired(rules.rates, repo.wake->0, repo).0,
            repo.plan,
        ),
        rules.after_fire(repo.wake->0, repo) matches Some(next) ==> steady(rules.rates, next)
            && next.items == fired(rules.rates, repo.wake->0, repo).0 && repo.wake->0
            <= next.wake->0,
{
    let rates = rules.rates;
    let now = repo.wake->0;
    let order = due_order(rates, now, repo.plan);
    let s = shapes(repo.plan);
    crate::partition::lemma_splits_len(crews(repo.plan), repo.items.dom());
    lemma_due(rates, now, repo.plan);
    lemma_volley(rates, now, repo.items, repo.plan, order, order.len());
    let t = choose|t: usize| #[trigger] repo.items.dom().contains(t);
    let b = choose|b: int|
        0 <= b < crews(repo.plan).len() && #[trigger] crews(repo.plan)[b].contains(t);
    lemma_first_start(rates, s);
    let i = choose|i: int| 0 <= i < s.len() && first_start(rates, s) == rates.latest(#[trigger] s[i]);
    assert(due(rates, now, repo.plan).contains(i as usize));
    assert(order.to_set().contains(i as usize));
    let left = fired(rates, now, repo).0;
    lemma_still_ready(rates, now, repo.items, repo.plan, left);
    if inhabited(left.dom()) {
        lemma_planned(rules, now, Repo { items: left, plan: repo.plan, wake: None });
    }
}

} // verus!
