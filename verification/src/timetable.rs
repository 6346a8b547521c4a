//! The order of launches, and who goes along with them.
use vstd::prelude::*;

use crate::bits::bits_lt;
use crate::drive_laws::{lemma_dawn, lemma_moment, underway};
use crate::lane::{
    ahead, due, due_order, fired, lemma_ahead_orders, satisfied, shot, volley, Launch, Repo, Rules,
};
use crate::lane_laws::{
    lemma_due, lemma_fired, lemma_live, lemma_shot, lemma_volley, sound_plan, steady,
};
use crate::listing::lemma_listing;
use crate::names::name_lt;
use crate::partition::{lemma_splits_finite, lemma_splits_len};
use crate::placing::slack;
use crate::shape::{gather, lemma_gather_agree, Rates, Shape};
use crate::state::{arriving, dawn, later, Ask, State};
use crate::state_laws::{
    acceptable, lemma_arrive, lemma_arrive_repos, lemma_next, lemma_progress, lemma_ring,
    lemma_ring_waiting, quiet, sane, welcome, wishes,
};
use crate::team::{crews, Team};

verus! {

/// The job could go along with the launched batch: it asks for nothing that the batch does
/// not run, and the batch is done by its deadline.
pub open spec fn could_join(rates: Rates, items: Map<usize, Shape>, launch: Launch, job: Shape) -> bool {
    let checks = gather(items, launch.jobs).checks;
    job.checks.subset_of(checks) && launch.at + rates.duration(checks) <= job.deadline
}

/// Nobody who could go along is left behind by a volley.
proof fn lemma_volley_full(
    rates: Rates,
    now: u64,
    items: Map<usize, Shape>,
    plan: Seq<Team>,
    order: Seq<usize>,
    k: nat,
)
    requires
        sound_plan(rates, now, items, plan),
        k <= order.len(),
        forall|i: int| 0 <= i < order.len() ==> (#[trigger] order[i]) < plan.len(),
        forall|i: int|
            0 <= i < order.len() ==> rates.latest(plan[(#[trigger] order[i]) as int].shape) == now,
    ensures
        ({
            let (left, launches) = volley(rates, now, items, plan, order, k);
            &&& forall|i: int, t: usize|
                0 <= i < launches.len() && #[trigger] left.contains_key(t) ==> !could_join(
                    rates,
                    items,
                    #[trigger] launches[i],
                    items[t],
                )
            &&& forall|i: int, j: int, t: usize|
                0 <= i < j < launches.len() && #[trigger] launches[j].jobs.contains(t)
                    ==> !could_join(rates, items, #[trigger] launches[i], items[t])
        }),
    decreases k,
{
    let (left, launches) = volley(rates, now, items, plan, order, k);
    if k > 0 {
        let (before, earlier) = volley(rates, now, items, plan, order, (k - 1) as nat);
        lemma_volley_full(rates, now, items, plan, order, (k - 1) as nat);
        lemma_volley(rates, now, items, plan, order, (k - 1) as nat);
        let x = order[k - 1] as int;
        let members = plan[x].members;
        assert(crews(plan)[x] == members);
        lemma_splits_finite(crews(plan), items.dom());
        lemma_live(rates, items, before, members);
        match shot(rates, now, before, members) {
            Some(jobs) => {
                let n = earlier.len() as int;
                let checks = gather(before, members.intersect(before.dom())).checks;
                lemma_shot(rates, now, before, members);
                assert forall|t: usize| #[trigger] jobs.contains(t) implies before[t]
                    == items[t] by {
                    assert(before.contains_key(t));
                }
                vstd::set_lib::lemma_set_subset_finite(before.dom(), jobs);
                lemma_gather_agree(before, items, jobs);
                assert(gather(items, jobs).checks == checks);
                assert forall|i: int, t: usize|
                    0 <= i < launches.len() && #[trigger] left.contains_key(
                        t,
                    ) implies !could_join(rates, items, #[trigger] launches[i], items[t]) by {
                    assert(before.contains_key(t));
                    if i < n {
                        assert(launches[i] == earlier[i]);
                    } else {
                        assert(!satisfied(rates, now, before, checks).contains(t));
                    }
                }
                assert forall|i: int, j: int, t: usize|
                    0 <= i < j < launches.len() && #[trigger] launches[j].jobs.contains(
                        t,
                    ) implies !could_join(rates, items, #[trigger] launches[i], items[t]) by {
                    assert(launches[i] == earlier[i]);
                    if j < n {
                        assert(earlier[j].jobs.contains(t));
                    } else {
                        assert(before.contains_key(t));
                    }
                }
            },
            None => {},
        }
    }
}

/// Launches at one time are in order of repository name.
pub open spec fn by_name(all: Map<usize, Ask>, launches: Seq<Launch>) -> bool {
    forall|k: int, l: int, t: usize, u: usize|
        0 <= k < l < launches.len() && #[trigger] launches[k].jobs.contains(t)
            && #[trigger] launches[l].jobs.contains(u) && launches[k].at == launches[l].at
            ==> all[t].repo == all[u].repo || name_lt(all[t].repo, all[u].repo)
}

/// Who comes later did not wait in the same repository when the batch was launched, or
/// could not go along with it.
pub open spec fn nobody_missed(rates: Rates, all: Map<usize, Ask>, launches: Seq<Launch>) -> bool {
    forall|k: int, l: int, t: usize, u: usize|
        0 <= k < l < launches.len() && #[trigger] launches[k].jobs.contains(t)
            && #[trigger] launches[l].jobs.contains(u) && all[t].repo == all[u].repo && all[u].at
            <= launches[k].at ==> !could_join(rates, wishes(all), launches[k], all[u].shape)
}

/// The launches so far are in order, and the timers and waiting jobs keep them so.
#[verifier::opaque]
pub open spec fn well_kept(rates: Rates, all: Map<usize, Ask>, s: State) -> bool {
    &&& by_name(all, s.launches)
    &&& nobody_missed(rates, all, s.launches)
    &&& forall|k: int, t: usize, n: Seq<char>|
        0 <= k < s.launches.len() && #[trigger] s.launches[k].jobs.contains(t)
            && #[trigger] s.repos.contains_key(n) ==> {
            let wake = s.repos[n].wake->0;
            s.launches[k].at < wake || s.launches[k].at == wake && (all[t].repo == n || name_lt(
                all[t].repo,
                n,
            ))
        }
    &&& forall|k: int, t: usize, u: usize|
        0 <= k < s.launches.len() && #[trigger] s.launches[k].jobs.contains(t)
            && #[trigger] s.waiting().contains(u) && all[t].repo == all[u].repo && all[u].at
            <= s.launches[k].at ==> !could_join(
            rates,
            wishes(all),
            s.launches[k],
            all[u].shape,
        )
}

/// What one ring launches.
proof fn lemma_ring_shots(rules: Rules, all: Map<usize, Ask>, s: State)
    requires
        sane(rules, all, s),
        !s.idle(),
    ensures
        ({
            let shots = fired(rules.rates, s.next_wake()->0, s.repos[s.next()]).1;
            let left = fired(rules.rates, s.next_wake()->0, s.repos[s.next()]).0;
            &&& forall|i: int| 0 <= i < shots.len() ==> (#[trigger] shots[i]).at == s.next_wake()->0
            &&& forall|i: int, t: usize|
                0 <= i < shots.len() && #[trigger] shots[i].jobs.contains(t) ==> all.contains_key(t)
                    && all[t].repo == s.next() && s.waiting().contains(t)
            &&& forall|i: int, u: usize|
                0 <= i < shots.len() && #[trigger] left.contains_key(u) ==> !could_join(
                    rules.rates,
                    wishes(all),
                    #[trigger] shots[i],
                    all[u].shape,
                )
            &&& forall|i: int, j: int, u: usize|
                0 <= i < j < shots.len() && #[trigger] shots[j].jobs.contains(u) ==> !could_join(
                    rules.rates,
                    wishes(all),
                    #[trigger] shots[i],
                    all[u].shape,
                )
        }),
{
    let rates = rules.rates;
    let name = s.next();
    let now = s.next_wake()->0;
    let repo = s.repos[name];
    lemma_ring(rules, all, s);
    lemma_fired(rules, repo);
    let (left, shots) = fired(rates, now, repo);
    let order = due_order(rates, now, repo.plan);
    lemma_splits_len(crews(repo.plan), repo.items.dom());
    lemma_due(rates, now, repo.plan);
    lemma_volley_full(rates, now, repo.items, repo.plan, order, order.len());
    assert forall|i: int| 0 <= i < shots.len() implies gather(
        repo.items,
        (#[trigger] shots[i]).jobs,
    ) == gather(wishes(all), shots[i].jobs) by {
        let jobs = shots[i].jobs;
        assert forall|t: usize| #[trigger] jobs.contains(t) implies repo.items[t] == wishes(
            all,
        )[t] by {
            assert(shots[i].jobs.contains(t));
            assert(repo.items.contains_key(t));
        }
        lemma_gather_agree(repo.items, wishes(all), jobs);
    }
    assert forall|i: int, t: usize|
        0 <= i < shots.len() && #[trigger] shots[i].jobs.contains(t) implies all.contains_key(t)
        && all[t].repo == name && s.waiting().contains(t) by {
        assert(repo.items.contains_key(t));
        assert(s.repos.contains_key(name) && s.repos[name].items.contains_key(t));
    }
    assert forall|i: int, u: usize|
        0 <= i < shots.len() && #[trigger] left.contains_key(u) implies !could_join(
        rates,
        wishes(all),
        #[trigger] shots[i],
        all[u].shape,
    ) by {
        assert(repo.items.contains_key(u));
        assert(!could_join(rates, repo.items, shots[i], repo.items[u]));
    }
    assert forall|i: int, j: int, u: usize|
        0 <= i < j < shots.len() && #[trigger] shots[j].jobs.contains(u) implies !could_join(
        rates,
        wishes(all),
        #[trigger] shots[i],
        all[u].shape,
    ) by {
        assert(repo.items.contains_key(u));
        assert(!could_join(rates, repo.items, shots[i], repo.items[u]));
    }
}

/// A ring keeps the order.
proof fn lemma_ring_kept(rules: Rules, all: Map<usize, Ask>, s: State)
    requires
        sane(rules, all, s),
        !s.idle(),
        well_kept(rules.rates, all, s),
    ensures
        well_kept(rules.rates, all, rules.ring(s)),
{
    let rates = rules.rates;
    let after = rules.ring(s);
    let name = s.next();
    let now = s.next_wake()->0;
    let repo = s.repos[name];
    let (left, shots) = fired(rates, now, repo);
    lemma_next(s);
    lemma_ring(rules, all, s);
    lemma_ring_waiting(rules, all, s);
    lemma_fired(rules, repo);
    lemma_ring_shots(rules, all, s);
    reveal(well_kept);
    let n = s.launches.len() as int;
    let launches = after.launches;
    assert forall|k: int| 0 <= k < launches.len() implies #[trigger] launches[k] == if k < n {
        s.launches[k]
    } else {
        shots[k - n]
    } by {}
    assert(by_name(all, launches)) by {
        assert forall|k: int, l: int, t: usize, u: usize|
            0 <= k < l < launches.len() && #[trigger] launches[k].jobs.contains(t)
                && #[trigger] launches[l].jobs.contains(u) && launches[k].at
                == launches[l].at implies all[t].repo == all[u].repo || name_lt(
            all[t].repo,
            all[u].repo,
        ) by {
            if l < n {
                assert(s.launches[k].jobs.contains(t) && s.launches[l].jobs.contains(u));
            } else {
                assert(shots[l - n].jobs.contains(u));
                if k < n {
                    assert(s.launches[k].jobs.contains(t) && s.repos.contains_key(name));
                } else {
                    assert(shots[k - n].jobs.contains(t));
                }
            }
        }
    }
    assert(nobody_missed(rates, all, launches)) by {
        assert forall|k: int, l: int, t: usize, u: usize|
            0 <= k < l < launches.len() && #[trigger] launches[k].jobs.contains(t)
                && #[trigger] launches[l].jobs.contains(u) && all[t].repo == all[u].repo
                && all[u].at <= launches[k].at implies !could_join(
            rates,
            wishes(all),
            launches[k],
            all[u].shape,
        ) by {
            if l < n {
                assert(s.launches[k].jobs.contains(t) && s.launches[l].jobs.contains(u));
            } else {
                assert(shots[l - n].jobs.contains(u));
                if k < n {
                    assert(s.launches[k].jobs.contains(t) && s.waiting().contains(u));
                } else {
                    assert(launches[k] == shots[k - n]);
                }
            }
        }
    }
    assert forall|k: int, t: usize, m: Seq<char>|
        0 <= k < launches.len() && #[trigger] launches[k].jobs.contains(t)
            && #[trigger] after.repos.contains_key(m) implies {
        let wake = after.repos[m].wake->0;
        launches[k].at < wake || launches[k].at == wake && (all[t].repo == m || name_lt(
            all[t].repo,
            m,
        ))
    } by {
        if m == name {
            assert(now <= after.repos[m].wake->0);
        } else {
            assert(s.repos.contains_key(m));
            assert(s.awake().contains(m));
            assert(s.rings(name, m));
        }
        if k < n {
            assert(s.launches[k].jobs.contains(t) && s.repos.contains_key(m));
        } else {
            assert(shots[k - n].jobs.contains(t));
        }
    }
    assert forall|k: int, t: usize, u: usize|
        0 <= k < launches.len() && #[trigger] launches[k].jobs.contains(t)
            && #[trigger] after.waiting().contains(u) && all[t].repo == all[u].repo && all[u].at
            <= launches[k].at implies !could_join(
        rates,
        wishes(all),
        launches[k],
        all[u].shape,
    ) by {
        let m = choose|m: Seq<char>| #[trigger]
            after.repos.contains_key(m) && after.repos[m].items.contains_key(u);
        if m == name {
            assert(left.contains_key(u));
            assert(repo.items.contains_key(u));
            assert(s.repos.contains_key(m) && s.repos[m].items.contains_key(u));
        } else {
            assert(s.repos.contains_key(m) && s.repos[m].items.contains_key(u));
        }
        assert(s.waiting().contains(u));
        assert(all[u].repo == m);
        if k < n {
            assert(s.launches[k].jobs.contains(t) && s.waiting().contains(u));
        } else {
            assert(shots[k - n].jobs.contains(t));
            assert(launches[k] == shots[k - n]);
        }
    }
}

/// No launch at or after the limit, or only at it if that counts.
pub open spec fn done_by(launches: Seq<Launch>, limit: u64, inclusive: bool) -> bool {
    forall|k: int|
        0 <= k < launches.len() ==> (#[trigger] launches[k]).at < limit || inclusive
            && launches[k].at == limit
}

proof fn lemma_advance_kept(
    rules: Rules,
    all: Map<usize, Ask>,
    s: State,
    limit: u64,
    inclusive: bool,
)
    requires
        sane(rules, all, s),
        all.dom().finite(),
        well_kept(rules.rates, all, s),
        done_by(s.launches, limit, inclusive),
    ensures
        well_kept(rules.rates, all, rules.advance(s, limit, inclusive)),
        done_by(rules.advance(s, limit, inclusive).launches, limit, inclusive),
    decreases s.waiting().len(),
{
    lemma_next(s);
    if s.rung(limit, inclusive) {
        let after = rules.ring(s);
        lemma_progress(rules, all, s);
        lemma_ring(rules, all, s);
        lemma_ring_kept(rules, all, s);
        lemma_ring_shots(rules, all, s);
        let n = s.launches.len() as int;
        let shots = fired(rules.rates, s.next_wake()->0, s.repos[s.next()]).1;
        assert forall|k: int| 0 <= k < after.launches.len() implies (
        #[trigger] after.launches[k]).at < limit || inclusive && after.launches[k].at == limit by {
            if k < n {
                assert(after.launches[k] == s.launches[k]);
            } else {
                assert(after.launches[k] == shots[k - n]);
            }
        }
        lemma_advance_kept(rules, all, after, limit, inclusive);
    }
}

/// Arrivals after all launches keep the order.
proof fn lemma_arrive_kept(
    rules: Rules,
    all: Map<usize, Ask>,
    s: State,
    batch: Map<usize, Ask>,
    now: u64,
)
    requires
        welcome(rules, all, s, batch, now),
        quiet(s, now),
        well_kept(rules.rates, all, s),
        done_by(s.launches, now, false),
    ensures
        well_kept(rules.rates, all, rules.arrive(s, batch, now)),
{
    let after = rules.arrive(s, batch, now);
    lemma_arrive(rules, all, s, batch, now);
    lemma_arrive_repos(rules, all, s, batch, now);
    reveal(well_kept);
    assert forall|k: int, t: usize, n: Seq<char>|
        0 <= k < after.launches.len() && #[trigger] after.launches[k].jobs.contains(t)
            && #[trigger] after.repos.contains_key(n) implies {
        let wake = after.repos[n].wake->0;
        after.launches[k].at < wake || after.launches[k].at == wake && (all[t].repo == n || name_lt(
            all[t].repo,
            n,
        ))
    } by {
        assert(now <= after.repos[n].wake->0);
        assert(after.launches[k].at < now);
    }
    assert forall|k: int, t: usize, u: usize|
        0 <= k < after.launches.len() && #[trigger] after.launches[k].jobs.contains(t)
            && #[trigger] after.waiting().contains(u) && all[t].repo == all[u].repo && all[u].at
            <= after.launches[k].at implies !could_join(
        rules.rates,
        wishes(all),
        after.launches[k],
        all[u].shape,
    ) by {
        assert(s.launches[k].jobs.contains(t));
        if batch.contains_key(u) {
            assert(all[u].at == now);
        } else {
            assert(s.waiting().contains(u));
        }
    }
}

proof fn lemma_drive_kept(rules: Rules, all: Map<usize, Ask>, s: State, rest: Map<usize, Ask>)
    requires
        underway(rules, all, s, rest),
        well_kept(rules.rates, all, s),
        forall|t: usize| #[trigger]
            rest.contains_key(t) ==> done_by(s.launches, rest[t].at, false),
    ensures
        sane(rules, all, rules.drive(s, rest)),
        well_kept(rules.rates, all, rules.drive(s, rest)),
    decreases rest.dom().len(),
{
    assert forall|t: usize| rest.dom().contains(t) implies all.dom().contains(t) by {
        assert(rest.contains_key(t));
    }
    vstd::set_lib::lemma_set_subset_finite(all.dom(), rest.dom());
    if rest.dom().len() == 0 {
    } else {
        lemma_dawn(rest);
        let now = dawn(rest);
        let batch = arriving(rest, now);
        let rest2 = later(rest, now);
        let s1 = rules.advance(s, now, false);
        let s2 = rules.arrive(s1, batch, now);
        let s3 = rules.moment(s, batch, now);
        lemma_moment(rules, all, s, rest, now);
        let x = choose|x: usize| #[trigger] rest.contains_key(x) && rest[x].at == now;
        assert(done_by(s.launches, rest[x].at, false));
        lemma_advance_kept(rules, all, s, now, false);
        lemma_arrive_kept(rules, all, s1, batch, now);
        lemma_arrive(rules, all, s1, batch, now);
        lemma_advance_kept(rules, all, s2, now, true);
        assert forall|t: usize| #[trigger] rest2.contains_key(t) implies done_by(
            s3.launches,
            rest2[t].at,
            false,
        ) by {
            assert(rest.contains_key(t));
            assert(now < rest2[t].at);
        }
        lemma_drive_kept(rules, all, s3, rest2);
    }
}

/// Batches launched at one time are in order of repository name. When a batch is launched,
/// every job that waits in its repository and could go along does, those that have just
/// arrived among them.
pub proof fn lemma_in_turn(rules: Rules, all: Map<usize, Ask>)
    requires
        acceptable(rules.rates, all),
    ensures
        by_name(all, rules.run(all).launches),
        nobody_missed(rules.rates, all, rules.run(all).launches),
{
    let start = State::start();
    assert(underway(rules, all, start, all));
    assert(well_kept(rules.rates, all, start)) by {
        reveal(well_kept);
    }
    lemma_drive_kept(rules, all, start, all);
    let mid = rules.drive(start, all);
    assert(done_by(mid.launches, u64::MAX, true));
    lemma_advance_kept(rules, all, mid, u64::MAX, true);
    reveal(well_kept);
}

/// Which of the due batches are launched, by their places in the order.
proof fn lemma_volley_places(
    rates: Rates,
    now: u64,
    items: Map<usize, Shape>,
    plan: Seq<Team>,
    order: Seq<usize>,
    k: nat,
) -> (places: Seq<int>)
    requires
        sound_plan(rates, now, items, plan),
        k <= order.len(),
        forall|i: int| 0 <= i < order.len() ==> (#[trigger] order[i]) < plan.len(),
        forall|i: int|
            0 <= i < order.len() ==> rates.latest(plan[(#[trigger] order[i]) as int].shape) == now,
    ensures
        ({
            let launches = volley(rates, now, items, plan, order, k).1;
            &&& places.len() == launches.len()
            &&& forall|i: int, j: int|
                0 <= i < j < places.len() ==> #[trigger] places[i] < #[trigger] places[j]
            &&& forall|i: int|
                0 <= i < places.len() ==> 0 <= #[trigger] places[i] < k && has_some(
                    launches[i].jobs,
                    plan[order[places[i]] as int].members,
                )
        }),
    decreases k,
{
    if k == 0 {
        Seq::empty()
    } else {
        let (before, earlier) = volley(rates, now, items, plan, order, (k - 1) as nat);
        let launches = volley(rates, now, items, plan, order, k).1;
        let prior = lemma_volley_places(rates, now, items, plan, order, (k - 1) as nat);
        lemma_volley(rates, now, items, plan, order, (k - 1) as nat);
        let members = plan[order[k - 1] as int].members;
        assert(crews(plan)[order[k - 1] as int] == members);
        lemma_splits_finite(crews(plan), items.dom());
        lemma_live(rates, items, before, members);
        match shot(rates, now, before, members) {
            Some(jobs) => {
                let places = prior.push(k - 1);
                lemma_shot(rates, now, before, members);
                let live = members.intersect(before.dom());
                let t = choose|t: usize| #[trigger] live.contains(t);
                assert(live.contains(t));
                assert(jobs.contains(t) && members.contains(t));
                assert(has_some(jobs, members));
                assert forall|i: int| 0 <= i < places.len() implies 0 <= #[trigger] places[i] < k
                    && has_some(launches[i].jobs, plan[order[places[i]] as int].members) by {
                    if i < prior.len() {
                        assert(places[i] == prior[i]);
                        assert(launches[i] == earlier[i]);
                    }
                }
                assert forall|i: int, j: int| 0 <= i < j < places.len() implies #[trigger] places[i]
                    < #[trigger] places[j] by {
                    assert(places[i] == prior[i]);
                    if j < prior.len() {
                        assert(places[j] == prior[j]);
                    }
                }
                places
            },
            None => prior,
        }
    }
}

/// Some member is among the jobs.
pub open spec fn has_some(jobs: Set<usize>, members: Set<usize>) -> bool {
    exists|t: usize| #[trigger] jobs.contains(t) && members.contains(t)
}

/// What a timer launches, in order: for planned batches that have to start now, the one
/// whose checks are the smaller numeral first, and of equals the one planned first.
pub proof fn lemma_volley_order(rates: Rates, repo: Repo) -> (who: Seq<usize>)
    requires
        steady(rates, repo),
    ensures
        ({
            let now = repo.wake->0;
            let launches = fired(rates, now, repo).1;
            &&& who.len() == launches.len()
            &&& forall|i: int|
                0 <= i < who.len() ==> (#[trigger] who[i]) < repo.plan.len() && slack(
                    rates,
                    repo.plan[who[i] as int].shape,
                ) == now && launches[i].at == now && has_some(
                    launches[i].jobs,
                    repo.plan[who[i] as int].members,
                )
            &&& forall|i: int, j: int|
                0 <= i < j < who.len() ==> {
                    let x = repo.plan[(#[trigger] who[i]) as int].shape.checks;
                    let y = repo.plan[(#[trigger] who[j]) as int].shape.checks;
                    bits_lt(x, y) || x == y && who[i] < who[j]
                }
        }),
{
    let now = repo.wake->0;
    let plan = repo.plan;
    let order = due_order(rates, now, plan);
    let launches = fired(rates, now, repo).1;
    lemma_splits_len(crews(plan), repo.items.dom());
    lemma_due(rates, now, plan);
    lemma_ahead_orders(plan, due(rates, now, plan));
    let lt = |a: usize, b: usize| ahead(plan, a, b);
    lemma_listing(due(rates, now, plan), lt);
    let places = lemma_volley_places(rates, now, repo.items, plan, order, order.len());
    lemma_volley(rates, now, repo.items, plan, order, order.len());
    let who = Seq::new(places.len(), |i: int| order[places[i]]);
    assert forall|i: int| 0 <= i < who.len() implies (#[trigger] who[i]) < plan.len() && slack(
        rates,
        plan[who[i] as int].shape,
    ) == now && launches[i].at == now && has_some(launches[i].jobs, plan[who[i] as int].members) by {
        assert(who[i] == order[places[i]]);
    }
    assert forall|i: int, j: int| 0 <= i < j < who.len() implies {
        let x = plan[(#[trigger] who[i]) as int].shape.checks;
        let y = plan[(#[trigger] who[j]) as int].shape.checks;
        bits_lt(x, y) || x == y && who[i] < who[j]
    } by {
        assert(places[i] < places[j]);
        assert(lt(order[places[i]], order[places[j]]));
    }
    who
}

} // verus!
