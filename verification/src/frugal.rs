//! Jobs that are all known at once are served in the best way there is.
use vstd::prelude::*;

use crate::drive_laws::{lemma_moment, underway};
use crate::lane::{due_order, fired, shot, volley, Launch, Repo, Rules};
use crate::lane_laws::{lemma_due, lemma_fired, lemma_live, lemma_shot, lemma_volley, sound_plan};
use crate::ledger::{booked, lemma_schedule};
use crate::partition::{
    beats, feasible, gathered, inhabited, lemma_seconds_concat, lemma_seconds_push,
    lemma_splits_finite, lemma_splits_len, score, seconds, splits,
};
use crate::plan::{apart, carried, effort, held, kept, plan, ready};
use crate::plan_best::{lemma_plan, lemma_plan_best};
use crate::plan_laws::lemma_kept;
use crate::policy::Policy;
use crate::shape::{
    gather, lemma_gather_agree, lemma_gather_shrinks, lemma_work_monotone, Rates, Shape,
};
use crate::solo::{lemma_solo, mine, only};
use crate::state::{arriving, filed, is_dawn, later, touched, Ask, State};
use crate::state_laws::{
    acceptable, lemma_advance, lemma_arrive_repos, lemma_filed_ready, lemma_next, lemma_progress,
    lemma_ring, sane, wishes,
};
use crate::team::{crews, lemma_patterns_arrange, shapes, team_of, Team};

verus! {

/// What each launched batch runs.
pub open spec fn demands(items: Map<usize, Shape>, launches: Seq<Launch>) -> Seq<Shape> {
    launches.map_values(|launch: Launch| gather(items, launch.jobs))
}

/// As good a score for the policy, or better.
pub open spec fn no_worse(policy: Policy, new: (nat, nat), old: (nat, nat)) -> bool {
    match policy {
        Policy::Cost => !beats(old, new),
        Policy::Count => new.0 <= old.0,
    }
}

/// What is left of a plan shrinks with the jobs that wait, and by a whole batch where
/// all of its jobs are gone.
proof fn lemma_kept_shrinks(
    rates: Rates,
    items: Map<usize, Shape>,
    left: Map<usize, Shape>,
    plan: Seq<Team>,
    gone: int,
)
    requires
        items.dom().finite(),
        left.dom().subset_of(items.dom()),
        forall|t: usize| #[trigger] left.contains_key(t) ==> left[t] == items[t],
    ensures
        kept(left, plan).len() <= kept(items, plan).len(),
        seconds(rates, shapes(kept(left, plan))) <= seconds(rates, shapes(kept(items, plan))),
        0 <= gone < plan.len() && inhabited(plan[gone].members.intersect(items.dom()))
            && !inhabited(plan[gone].members.intersect(left.dom())) ==> {
            &&& kept(left, plan).len() + 1 <= kept(items, plan).len()
            &&& seconds(rates, shapes(kept(left, plan))) + rates.duration(
                gather(items, plan[gone].members.intersect(items.dom())).checks,
            ) <= seconds(rates, shapes(kept(items, plan)))
        },
    decreases plan.len(),
{
    if plan.len() > 0 {
        let init = plan.drop_last();
        let before = plan.last().members.intersect(items.dom());
        let after = plan.last().members.intersect(left.dom());
        lemma_kept_shrinks(rates, items, left, init, gone);
        assert(before.subset_of(items.dom()));
        vstd::set_lib::lemma_set_subset_finite(items.dom(), before);
        assert(after.subset_of(before));
        vstd::set_lib::lemma_set_subset_finite(before, after);
        assert forall|t: usize| #[trigger] after.contains(t) implies left[t] == items[t] by {
            assert(left.contains_key(t));
        }
        lemma_gather_agree(left, items, after);
        lemma_gather_shrinks(rates, items, after, before);
        lemma_work_monotone(rates, gather(items, after).checks, gather(items, before).checks);
        if inhabited(before) {
            lemma_shapes_push(rates, kept(items, init), team_of(items, before));
        }
        if inhabited(after) {
            let t = choose|t: usize| #[trigger] after.contains(t);
            assert(before.contains(t));
            lemma_shapes_push(rates, kept(left, init), team_of(left, after));
        }
        if 0 <= gone < init.len() {
            assert(init[gone] == plan[gone]);
        }
    }
}

proof fn lemma_shapes_push(rates: Rates, teams: Seq<Team>, team: Team)
    ensures
        seconds(rates, shapes(teams.push(team))) == seconds(rates, shapes(teams))
            + rates.duration(team.shape.checks),
{
    assert(shapes(teams.push(team)) =~= shapes(teams).push(team.shape));
    lemma_seconds_push(rates, shapes(teams), team.shape);
}

/// Of a plan whose jobs all wait, all is left.
pub proof fn lemma_kept_whole(items: Map<usize, Shape>, plan: Seq<Team>)
    requires
        forall|i: int|
            0 <= i < plan.len() ==> inhabited((#[trigger] plan[i]).members)
                && plan[i].members.subset_of(items.dom()) && plan[i].shape == gather(
                items,
                plan[i].members,
            ),
    ensures
        kept(items, plan) == plan,
    decreases plan.len(),
{
    if plan.len() > 0 {
        let init = plan.drop_last();
        assert forall|i: int| 0 <= i < init.len() implies inhabited((#[trigger] init[i]).members)
            && init[i].members.subset_of(items.dom()) && init[i].shape == gather(
            items,
            init[i].members,
        ) by {
            assert(init[i] == plan[i]);
        }
        lemma_kept_whole(items, init);
        assert(plan[plan.len() - 1] == plan.last());
        assert(plan.last().members.intersect(items.dom()) =~= plan.last().members);
        assert(plan =~= init.push(plan.last()));
    }
}

/// Without new jobs the carried plan is what is left.
pub proof fn lemma_carried_left(rates: Rates, now: u64, left: Map<usize, Shape>, plan: Seq<Team>)
    requires
        left.dom().finite(),
        apart(plan),
        left.dom().subset_of(held(plan)),
    ensures
        carried(rates, now, left, plan) == kept(left, plan),
{
    let stay = kept(left, plan);
    lemma_kept(left, plan);
    assert(held(stay) =~= left.dom());
    assert(left.dom().difference(held(stay)) =~= Set::<usize>::empty());
    lemma_patterns_arrange(left, Set::empty());
}

/// Launching costs no more than was planned.
proof fn lemma_volley_frugal(
    rates: Rates,
    now: u64,
    items: Map<usize, Shape>,
    plan: Seq<Team>,
    order: Seq<usize>,
    k: nat,
)
    requires
        sound_plan(rates, now, items, plan),
        k <= order.len(),
        forall|i: int| 0 <= i < order.len() ==> (#[trigger] order[i]) < plan.len(),
        forall|i: int|
            0 <= i < order.len() ==> rates.latest(plan[(#[trigger] order[i]) as int].shape) == now,
    ensures
        ({
            let (left, launches) = volley(rates, now, items, plan, order, k);
            &&& launches.len() + kept(left, plan).len() <= plan.len()
            &&& seconds(rates, demands(items, launches)) + seconds(rates, shapes(kept(left, plan)))
                <= seconds(rates, shapes(plan))
        }),
    decreases k,
{
    let (left, launches) = volley(rates, now, items, plan, order, k);
    lemma_volley(rates, now, items, plan, order, k);
    if k == 0 {
        assert forall|i: int| 0 <= i < plan.len() implies inhabited((#[trigger] plan[i]).members)
            && plan[i].members.subset_of(items.dom()) && plan[i].shape == gather(
            items,
            plan[i].members,
        ) by {
            assert(crews(plan)[i] == plan[i].members);
            assert(inhabited(crews(plan)[i]));
            assert forall|t: usize| plan[i].members.contains(t) implies items.dom().contains(t) by {
                assert(crews(plan)[i].contains(t));
            }
        }
        lemma_kept_whole(items, plan);
        assert(demands(items, launches) =~= Seq::<Shape>::empty());
    } else {
        let (before, earlier) = volley(rates, now, items, plan, order, (k - 1) as nat);
        lemma_volley_frugal(rates, now, items, plan, order, (k - 1) as nat);
        lemma_volley(rates, now, items, plan, order, (k - 1) as nat);
        let x = order[k - 1] as int;
        let members = plan[x].members;
        assert(crews(plan)[x] == members);
        lemma_splits_finite(crews(plan), items.dom());
        lemma_live(rates, items, before, members);
        match shot(rates, now, before, members) {
            Some(jobs) => {
                lemma_shot(rates, now, before, members);
                assert(left.dom() =~= before.dom().difference(jobs));
                assert forall|t: usize| #[trigger] jobs.contains(t) implies before[t]
                    == items[t] by {
                    assert(before.contains_key(t));
                }
                vstd::set_lib::lemma_set_subset_finite(before.dom(), jobs);
                lemma_gather_agree(before, items, jobs);
                assert(!inhabited(members.intersect(left.dom()))) by {
                    assert forall|t: usize| !members.intersect(left.dom()).contains(t) by {
                        if members.intersect(left.dom()).contains(t) {
                            assert(members.intersect(before.dom()).contains(t));
                        }
                    }
                }
                lemma_kept_shrinks(rates, before, left, plan, x);
                assert(demands(items, launches) =~= demands(items, earlier).push(
                    gather(items, jobs),
                ));
                lemma_seconds_push(rates, demands(items, earlier), gather(items, jobs));
            },
            None => {},
        }
    }
}

/// Batches launched and planned, and their machine seconds.
pub open spec fn standing(rates: Rates, all: Map<usize, Ask>, name: Seq<char>, s: State) -> (
    nat,
    nat,
) {
    let made = s.repo(name).plan;
    (
        s.launches.len() + made.len(),
        seconds(rates, demands(wishes(all), s.launches)) + seconds(rates, shapes(made)),
    )
}

/// A ring costs no more than was planned.
proof fn lemma_ring_frugal(rules: Rules, all: Map<usize, Ask>, name: Seq<char>, s: State)
    requires
        sane(rules, all, s),
        !s.idle(),
        s.repos.dom().subset_of(set![name]),
    ensures
        rules.ring(s).repos.dom().subset_of(set![name]),
        no_worse(
            rules.policy,
            standing(rules.rates, all, name, rules.ring(s)),
            standing(rules.rates, all, name, s),
        ),
{
    let rates = rules.rates;
    let repo = s.repos[name];
    lemma_ring(rules, all, s);
    assert(set![name].contains(s.next()));
    let now = s.next_wake()->0;
    lemma_fired(rules, repo);
    let (left, shots) = fired(rates, now, repo);
    let order = due_order(rates, now, repo.plan);
    lemma_splits_len(crews(repo.plan), repo.items.dom());
    lemma_due(rates, now, repo.plan);
    lemma_volley_frugal(rates, now, repo.items, repo.plan, order, order.len());
    assert forall|i: int| 0 <= i < shots.len() implies gather(
        repo.items,
        (#[trigger] shots[i]).jobs,
    ) == gather(wishes(all), shots[i].jobs) by {
        let jobs = shots[i].jobs;
        assert forall|t: usize| #[trigger] jobs.contains(t) implies repo.items[t] == wishes(
            all,
        )[t] by {
            assert(shots[i].jobs.contains(t));
            assert(repo.items.contains_key(t));
        }
        lemma_gather_agree(repo.items, wishes(all), jobs);
    }
    assert(demands(repo.items, shots) =~= demands(wishes(all), shots));
    assert(demands(wishes(all), s.launches + shots) =~= demands(wishes(all), s.launches) + demands(
        wishes(all),
        shots,
    ));
    lemma_seconds_concat(rates, demands(wishes(all), s.launches), demands(wishes(all), shots));
    if inhabited(left.dom()) {
        lemma_plan(rates, now, rules.policy, left, repo.plan);
        assert(left.dom().subset_of(held(repo.plan))) by {
            assert forall|t: usize| left.dom().contains(t) implies held(repo.plan).contains(t) by {
                assert(repo.items.dom().contains(t));
                let i = choose|i: int|
                    0 <= i < crews(repo.plan).len() && #[trigger] crews(repo.plan)[i].contains(t);
                assert(repo.plan[i].members.contains(t));
            }
        }
        lemma_carried_left(rates, now, left, repo.plan);
    } else {
        assert(!rules.ring(s).repos.contains_key(name));
        assert(shapes(Seq::<Team>::empty()) =~= Seq::<Shape>::empty());
    }
}

/// The same for any time that passes.
proof fn lemma_advance_frugal(
    rules: Rules,
    all: Map<usize, Ask>,
    name: Seq<char>,
    s: State,
    limit: u64,
    inclusive: bool,
)
    requires
        sane(rules, all, s),
        all.dom().finite(),
        s.repos.dom().subset_of(set![name]),
    ensures
        rules.advance(s, limit, inclusive).repos.dom().subset_of(set![name]),
        no_worse(
            rules.policy,
            standing(rules.rates, all, name, rules.advance(s, limit, inclusive)),
            standing(rules.rates, all, name, s),
        ),
    decreases s.waiting().len(),
{
    lemma_next(s);
    if s.rung(limit, inclusive) {
        lemma_progress(rules, all, s);
        lemma_ring(rules, all, s);
        lemma_ring_frugal(rules, all, name, s);
        lemma_advance_frugal(rules, all, name, rules.ring(s), limit, inclusive);
    }
}

/// All jobs arrive in one repository at one time.
pub open spec fn at_once(all: Map<usize, Ask>, name: Seq<char>, now: u64) -> bool {
    forall|t: usize| #[trigger] all.contains_key(t) ==> all[t].at == now && all[t].repo == name
}

/// The first plan, made when all jobs are there.
proof fn lemma_first_plan(rules: Rules, all: Map<usize, Ask>, name: Seq<char>, now: u64)
    requires
        acceptable(rules.rates, all),
        at_once(all, name, now),
        inhabited(all.dom()),
    ensures
        ready(rules.rates, now, wishes(all), Seq::empty()),
        ({
            let s = rules.arrive(State::start(), all, now);
            &&& sane(rules, all, s)
            &&& s.repos.dom() == set![name]
            &&& s.repos[name].plan == plan(
                rules.rates,
                now,
                rules.policy,
                wishes(all),
                Seq::empty(),
            )
            &&& s.launches == Seq::<Launch>::empty()
            &&& rules.run(all) == rules.advance(rules.advance(s, now, true), u64::MAX, true)
        }),
{
    let start = State::start();
    let t = choose|t: usize| #[trigger] all.dom().contains(t);
    assert(all.contains_key(t));
    assert(underway(rules, all, start, all));
    assert(is_dawn(all, now));
    lemma_moment(rules, all, start, all, now);
    lemma_next(start);
    assert(rules.advance(start, now, false) == start);
    assert(arriving(all, now) =~= all);
    assert(later(all, now) =~= Map::<usize, Ask>::empty());
    assert(touched(all) =~= set![name]);
    let repo = filed(start.repo(name), all, name);
    assert(repo.items =~= wishes(all));
    lemma_filed_ready(rules, all, start, all, now, name);
    lemma_arrive_repos(rules, all, start, all, now);
    let s = rules.arrive(start, all, now);
    assert(s.repos.dom() =~= set![name]);
    assert(s.repos[name] == rules.planned(now, repo)->0) by {
        assert(touched(all).contains(name));
    }
    assert(rules.drive(rules.moment(start, all, now), Map::<usize, Ask>::empty())
        == rules.moment(start, all, now));
}

/// The law for one repository alone.
proof fn lemma_known_alone(
    rules: Rules,
    all: Map<usize, Ask>,
    name: Seq<char>,
    now: u64,
    blocks: Seq<Set<usize>>,
)
    requires
        acceptable(rules.rates, all),
        at_once(all, name, now),
        effort(rules.rates, now, rules.policy, wishes(all), Seq::empty()).exhaustions == 0,
        splits(blocks, all.dom()),
        feasible(rules.rates, wishes(all), blocks, now),
    ensures
        no_worse(
            rules.policy,
            score(rules.rates, demands(wishes(all), rules.run(all).launches)),
            score(rules.rates, gathered(wishes(all), blocks)),
        ),
{
    let rates = rules.rates;
    let end = rules.run(all);
    if inhabited(all.dom()) {
        let s = rules.arrive(State::start(), all, now);
        let mid = rules.advance(s, now, true);
        lemma_first_plan(rules, all, name, now);
        let made = s.repos[name].plan;
        assert(wishes(all).dom() =~= all.dom());
        assert(no_worse(
            rules.policy,
            score(rates, shapes(made)),
            score(rates, gathered(wishes(all), blocks)),
        )) by {
            lemma_plan_best(rates, now, rules.policy, wishes(all), Seq::empty(), blocks);
        }
        lemma_advance_frugal(rules, all, name, s, now, true);
        assert(sane(rules, all, mid)) by {
            lemma_advance(rules, all, s, now, true);
        }
        lemma_advance_frugal(rules, all, name, mid, u64::MAX, true);
        assert(standing(rates, all, name, s) == score(rates, shapes(made))) by {
            assert(demands(wishes(all), s.launches) =~= Seq::<Shape>::empty());
        }
        assert(standing(rates, all, name, end) == score(
            rates,
            demands(wishes(all), end.launches),
        )) by {
            lemma_all_launched(rules, all);
            assert(shapes(end.repo(name).plan) =~= Seq::<Shape>::empty());
        }
    } else {
        assert(demands(wishes(all), end.launches) =~= Seq::<Shape>::empty()) by {
            lemma_all_launched(rules, all);
        }
    }
}

/// Nothing is left at the end, and nothing comes of nothing.
proof fn lemma_all_launched(rules: Rules, all: Map<usize, Ask>)
    requires
        acceptable(rules.rates, all),
    ensures
        rules.run(all).repos == Map::<Seq<char>, Repo>::empty(),
        !inhabited(all.dom()) ==> rules.run(all).launches.len() == 0,
{
    let launches = rules.run(all).launches;
    lemma_schedule(rules, all);
    if launches.len() > 0 {
        assert(booked(rules.rates, all, launches[0]));
        let t = choose|t: usize| #[trigger] launches[0].jobs.contains(t);
        assert(all.dom().contains(t));
    }
}

/// Where all jobs of a repository arrive at one time, no division of them into batches
/// that could all start then uses fewer machines than they are given, or, where cost
/// counts, as many for less time, unless planning them stopped at a search limit.
pub proof fn lemma_known_best(
    rules: Rules,
    all: Map<usize, Ask>,
    name: Seq<char>,
    now: u64,
    blocks: Seq<Set<usize>>,
)
    requires
        acceptable(rules.rates, all),
        at_once(only(all, name), name, now),
        effort(
            rules.rates,
            now,
            rules.policy,
            wishes(only(all, name)),
            Seq::empty(),
        ).exhaustions == 0,
        splits(blocks, only(all, name).dom()),
        feasible(rules.rates, wishes(all), blocks, now),
    ensures
        mine(all, name, rules.run(all).launches).len() <= blocks.len(),
        rules.policy == Policy::Cost ==> !beats(
            score(rules.rates, gathered(wishes(all), blocks)),
            score(
                rules.rates,
                demands(wishes(all), mine(all, name, rules.run(all).launches)),
            ),
        ),
{
    let rates = rules.rates;
    let part = only(all, name);
    assert(part.dom().subset_of(all.dom()));
    vstd::set_lib::lemma_set_subset_finite(all.dom(), part.dom());
    vstd::set_lib::lemma_len_subset(part.dom(), all.dom());
    lemma_solo(rules, all, name);
    lemma_splits_finite(blocks, part.dom());
    assert forall|i: int| 0 <= i < blocks.len() implies gather(wishes(part), #[trigger] blocks[i])
        == gather(wishes(all), blocks[i]) by {
        assert forall|t: usize| #[trigger] blocks[i].contains(t) implies wishes(part)[t] == wishes(
            all,
        )[t] by {
            assert(part.dom().contains(t));
        }
        lemma_gather_agree(wishes(part), wishes(all), blocks[i]);
    }
    assert(gathered(wishes(part), blocks) =~= gathered(wishes(all), blocks));
    lemma_known_alone(rules, part, name, now, blocks);
    let launches = rules.run(part).launches;
    lemma_schedule(rules, part);
    assert forall|i: int| 0 <= i < launches.len() implies gather(
        wishes(part),
        (#[trigger] launches[i]).jobs,
    ) == gather(wishes(all), launches[i].jobs) by {
        assert(booked(rates, part, launches[i]));
        assert forall|t: usize| #[trigger] launches[i].jobs.contains(t) implies wishes(part)[t]
            == wishes(all)[t] by {
            assert(part.contains_key(t));
        }
        lemma_gather_agree(wishes(part), wishes(all), launches[i].jobs);
    }
    assert(demands(wishes(part), launches) =~= demands(wishes(all), launches));
}

} // verus!
