//! What is planned anew when jobs arrive or a timer rings, and what is counted.
use vstd::prelude::*;

use crate::lane::{fired, Repo, Rules};
use crate::lane_laws::{lemma_fired, lemma_planned};
use crate::listing::listing;
use crate::names::name_lt;
use crate::partition::{first_start, inhabited, lemma_first_start, splits};
use crate::placing::slack;
use crate::plan::{carried, effort, ready};
use crate::plan_best::lemma_plan;
use crate::policy::{Effort, Policy, Stats};
use crate::shape::{gather, Shape};
use crate::state::{filed, touched, Ask, State};
use crate::state_laws::{
    lemma_advance, lemma_arrive_repos, lemma_filed_ready, lemma_next, lemma_progress, lemma_replans,
    lemma_ring, lemma_ring_waiting, lemma_touched, sane, welcome,
};
use crate::team::{arranges, crews, shapes, Team};
use crate::thrift::{lemma_best_plan, lemma_change_pays, lemma_search_limits, machine_seconds};

verus! {

/// The repository has been planned anew for these jobs at this time. Each has one place,
/// and every batch can still wait. The plan is the old one carried on, unless the new one
/// has fewer batches, or, where cost decides, as many that take fewer seconds. The timer is
/// set for the batch that has to start first.
pub open spec fn planned_anew(
    rules: Rules,
    now: u64,
    items: Map<usize, Shape>,
    previous: Seq<Team>,
    repo: Repo,
) -> bool {
    let old = carried(rules.rates, now, items, previous);
    let saved = machine_seconds(rules.rates, items, crews(old)) - machine_seconds(
        rules.rates,
        items,
        crews(repo.plan),
    );
    &&& repo.items == items
    &&& arranges(items, repo.plan, items.dom())
    &&& repo.wake is Some && now <= repo.wake->0
    &&& forall|i: int|
        0 <= i < repo.plan.len() ==> repo.wake->0 <= slack(
            rules.rates,
            (#[trigger] repo.plan[i]).shape,
        )
    &&& exists|i: int|
        0 <= i < repo.plan.len() && repo.wake->0 == slack(
            rules.rates,
            (#[trigger] repo.plan[i]).shape,
        )
    &&& rules.policy == Policy::Count ==> repo.plan == old || repo.plan.len() < old.len()
    &&& rules.policy == Policy::Cost ==> repo.plan == old || repo.plan.len() < old.len()
        || repo.plan.len() == old.len() && saved > 0
}

proof fn lemma_planned_anew(rules: Rules, now: u64, repo: Repo)
    requires
        ready(rules.rates, now, repo.items, repo.plan),
        inhabited(repo.items.dom()),
    ensures
        planned_anew(rules, now, repo.items, repo.plan, rules.planned(now, repo)->0),
{
    let made = rules.planned(now, repo)->0;
    let s = shapes(made.plan);
    lemma_planned(rules, now, repo);
    lemma_plan(rules.rates, now, rules.policy, repo.items, repo.plan);
    lemma_change_pays(rules.rates, now, rules.policy, repo.items, repo.plan);
    lemma_first_start(rules.rates, s);
    assert forall|i: int| 0 <= i < made.plan.len() implies made.wake->0 <= slack(
        rules.rates,
        (#[trigger] made.plan[i]).shape,
    ) by {
        assert(s[i] == made.plan[i].shape);
    }
    let i = choose|i: int|
        0 <= i < s.len() && first_start(rules.rates, s) == rules.rates.latest(
            #[trigger] s[i],
        );
    assert(made.wake->0 == slack(rules.rates, made.plan[i].shape));
}

/// The jobs that wait in a repository once the arrivals are filed.
pub open spec fn now_waiting(s: State, batch: Map<usize, Ask>, name: Seq<char>) -> Map<usize, Shape> {
    Map::new(
        |t: usize|
            batch.contains_key(t) && batch[t].repo == name || s.repo(name).items.contains_key(t),
        |t: usize|
            if batch.contains_key(t) && batch[t].repo == name {
                batch[t].shape
            } else {
                s.repo(name).items[t]
            },
    )
}

/// Arrivals have every repository that they belong to planned anew, for what waits in it
/// and arrives, and no other. They launch nothing.
pub proof fn lemma_arrival_plans(
    rules: Rules,
    all: Map<usize, Ask>,
    s: State,
    batch: Map<usize, Ask>,
    now: u64,
    name: Seq<char>,
)
    requires
        welcome(rules, all, s, batch, now),
    ensures
        ({
            let after = rules.arrive(s, batch, now);
            let called = exists|t: usize| #[trigger] batch.contains_key(t) && batch[t].repo == name;
            &&& after.launches == s.launches
            &&& called ==> after.repos.contains_key(name) && planned_anew(
                rules,
                now,
                now_waiting(s, batch, name),
                s.repo(name).plan,
                after.repos[name],
            )
            &&& !called ==> after.repo(name) == s.repo(name)
        }),
{
    lemma_arrive_repos(rules, all, s, batch, now);
    if touched(batch).contains(name) {
        lemma_filed_ready(rules, all, s, batch, now, name);
        lemma_planned_anew(rules, now, filed(s.repo(name), batch, name));
        assert(filed(s.repo(name), batch, name).items =~= now_waiting(s, batch, name));
    }
}

/// After arrivals, no division of the jobs that wait in a repository that they belong to is
/// better than its plan, unless planning was cut short.
pub proof fn lemma_arrival_best(
    rules: Rules,
    all: Map<usize, Ask>,
    s: State,
    batch: Map<usize, Ask>,
    now: u64,
    name: Seq<char>,
    blocks: Seq<Set<usize>>,
)
    requires
        welcome(rules, all, s, batch, now),
        touched(batch).contains(name),
        effort(
            rules.rates,
            now,
            rules.policy,
            now_waiting(s, batch, name),
            s.repo(name).plan,
        ).exhaustions == 0,
        splits(blocks, now_waiting(s, batch, name).dom()),
        forall|b: int|
            0 <= b < blocks.len() ==> now <= slack(
                rules.rates,
                gather(now_waiting(s, batch, name), #[trigger] blocks[b]),
            ),
    ensures
        ({
            let made = rules.arrive(s, batch, now).repos[name].plan;
            &&& made.len() <= blocks.len()
            &&& rules.policy == Policy::Cost && made.len() == blocks.len() ==> machine_seconds(
                rules.rates,
                now_waiting(s, batch, name),
                crews(made),
            ) <= machine_seconds(rules.rates, now_waiting(s, batch, name), blocks)
        }),
{
    let items = now_waiting(s, batch, name);
    lemma_arrive_repos(rules, all, s, batch, now);
    lemma_filed_ready(rules, all, s, batch, now, name);
    assert(filed(s.repo(name), batch, name).items =~= items);
    lemma_best_plan(rules.rates, now, rules.policy, items, s.repo(name).plan, blocks);
}

/// A timer has the repository whose timer it is planned anew for the jobs that are left,
/// and no other. Where none is left, the repository is forgotten.
pub proof fn lemma_ring_plans(rules: Rules, all: Map<usize, Ask>, s: State, name: Seq<char>)
    requires
        sane(rules, all, s),
        !s.idle(),
    ensures
        ({
            let after = rules.ring(s);
            let now = s.next_wake()->0;
            let left = fired(rules.rates, now, s.repos[s.next()]).0;
            let any = exists|t: usize| #[trigger] left.contains_key(t);
            &&& name != s.next() ==> after.repo(name) == s.repo(name)
            &&& !any ==> !after.repos.contains_key(s.next())
            &&& any ==> after.repos.contains_key(s.next()) && planned_anew(
                rules,
                now,
                left,
                s.repos[s.next()].plan,
                after.repos[s.next()],
            )
        }),
{
    let repo = s.repos[s.next()];
    let now = s.next_wake()->0;
    let left = fired(rules.rates, now, repo).0;
    lemma_ring(rules, all, s);
    lemma_fired(rules, repo);
    if exists|t: usize| #[trigger] left.contains_key(t) {
        let t = choose|t: usize| #[trigger] left.contains_key(t);
        assert(left.dom().contains(t));
        lemma_planned_anew(rules, now, Repo { items: left, plan: repo.plan, wake: None });
    } else if inhabited(left.dom()) {
        let t = choose|t: usize| #[trigger] left.dom().contains(t);
        assert(left.contains_key(t));
    }
}

/// A counter that wraps around has gone on by `n`.
pub open spec fn counted(before: usize, n: nat, after: usize) -> bool {
    exists|turns: nat| before + n == after + #[trigger] (turns * (usize::MAX + 1))
}

proof fn lemma_counted(before: usize, n: nat)
    requires
        n <= usize::MAX,
    ensures
        counted(before, n, before.wrapping_add(n as usize)),
{
    let turns: nat = if before + n > usize::MAX {
        1
    } else {
        0
    };
    assert(before + n == before.wrapping_add(n as usize) + turns * (usize::MAX + 1)) by {
        assert(0 * (usize::MAX + 1) == 0 && 1 * (usize::MAX + 1) == usize::MAX + 1);
    }
}

proof fn lemma_counted_on(before: usize, n: nat, mid: usize, m: nat, after: usize)
    requires
        counted(before, n, mid),
        counted(mid, m, after),
    ensures
        counted(before, n + m, after),
{
    let a = choose|turns: nat| before + n == mid + #[trigger] (turns * (usize::MAX + 1));
    let b = choose|turns: nat| mid + m == after + #[trigger] (turns * (usize::MAX + 1));
    assert((a + b) * (usize::MAX + 1) == a * (usize::MAX + 1) + b * (usize::MAX + 1))
        by (nonlinear_arith);
}

/// One planning call of this effort has been counted. The peak is the largest number of
/// distinct check sets in any call.
pub open spec fn tallied(before: Stats, cost: Effort, after: Stats) -> bool {
    &&& counted(before.planning_calls, 1, after.planning_calls)
    &&& counted(before.exact_searches, cost.exact, after.exact_searches)
    &&& counted(before.bounded_searches, cost.bounded, after.bounded_searches)
    &&& counted(before.search_nodes, cost.nodes, after.search_nodes)
    &&& counted(before.search_budget_exhaustions, cost.exhaustions, after.search_budget_exhaustions)
    &&& before.peak_pending_patterns <= after.peak_pending_patterns
    &&& cost.patterns <= after.peak_pending_patterns
    &&& after.peak_pending_patterns == before.peak_pending_patterns || after.peak_pending_patterns
        == cost.patterns
}

/// Planning one repository anew is one call, counted with what it took.
pub proof fn lemma_tallied(rules: Rules, s: State, name: Seq<char>, now: u64)
    requires
        ready(rules.rates, now, s.repos[name].items, s.repos[name].plan),
    ensures
        ({
            let after = rules.replan(s, name, now);
            let cost = effort(
                rules.rates,
                now,
                rules.policy,
                s.repos[name].items,
                s.repos[name].plan,
            );
            let any = exists|t: usize| #[trigger] s.repos[name].items.dom().contains(t);
            &&& any ==> tallied(s.stats, cost, after.stats)
            &&& !any ==> after.stats == s.stats
        }),
{
    let items = s.repos[name].items;
    let cost = effort(rules.rates, now, rules.policy, items, s.repos[name].plan);
    lemma_search_limits(rules.rates, now, rules.policy, items, s.repos[name].plan);
    lemma_kinds_fit(items);
    lemma_counted(s.stats.planning_calls, 1);
    lemma_counted(s.stats.exact_searches, cost.exact);
    lemma_counted(s.stats.bounded_searches, cost.bounded);
    lemma_counted(s.stats.search_nodes, cost.nodes);
    lemma_counted(s.stats.search_budget_exhaustions, cost.exhaustions);
}

/// There are no more distinct check sets than jobs.
proof fn lemma_kinds_fit(items: Map<usize, Shape>)
    requires
        items.dom().finite(),
    ensures
        items.dom().map(|t: usize| items[t].checks).len() <= items.dom().len(),
{
    vstd::set_lib::lemma_map_size_bound(
        items.dom(),
        items.dom().map(|t: usize| items[t].checks),
        |t: usize| items[t].checks,
    );
}

/// The calls while the listed repositories are planned.
proof fn lemma_replans_counted(rules: Rules, s: State, names: Seq<Seq<char>>, k: nat, now: u64)
    requires
        k <= names.len(),
        names.no_duplicates(),
        forall|i: int|
            0 <= i < names.len() ==> s.repos.contains_key(#[trigger] names[i]) && inhabited(
                s.repos[names[i]].items.dom(),
            ) && ready(rules.rates, now, s.repos[names[i]].items, s.repos[names[i]].plan),
    ensures
        counted(s.stats.planning_calls, k, rules.replans(s, names, k, now).stats.planning_calls),
        s.stats.peak_pending_patterns <= rules.replans(
            s,
            names,
            k,
            now,
        ).stats.peak_pending_patterns,
        forall|i: int|
            0 <= i < k ==> distinct(s.repos[#[trigger] names[i]].items) <= rules.replans(
                s,
                names,
                k,
                now,
            ).stats.peak_pending_patterns,
        rules.replans(s, names, k, now).stats.peak_pending_patterns
            == s.stats.peak_pending_patterns || exists|i: int|
            0 <= i < k && distinct(s.repos[#[trigger] names[i]].items) == rules.replans(
                s,
                names,
                k,
                now,
            ).stats.peak_pending_patterns,
    decreases k,
{
    if k == 0 {
        lemma_counted(s.stats.planning_calls, 0);
    } else {
        let name = names[k - 1];
        let before = rules.replans(s, names, (k - 1) as nat, now);
        let after = rules.replans(s, names, k, now);
        lemma_replans_counted(rules, s, names, (k - 1) as nat, now);
        lemma_replans(rules, s, names, (k - 1) as nat, now);
        assert(s.repos.contains_key(names[k - 1]));
        assert(before.repos[name] == s.repos[name]);
        let t = choose|t: usize| #[trigger] s.repos[name].items.dom().contains(t);
        assert(before.repos[name].items.dom().contains(t));
        lemma_tallied(rules, before, name, now);
        lemma_search_limits(
            rules.rates,
            now,
            rules.policy,
            s.repos[name].items,
            s.repos[name].plan,
        );
        lemma_counted_on(
            s.stats.planning_calls,
            (k - 1) as nat,
            before.stats.planning_calls,
            1,
            after.stats.planning_calls,
        );
        if after.stats.peak_pending_patterns != before.stats.peak_pending_patterns {
            assert(distinct(s.repos[names[k - 1]].items) == after.stats.peak_pending_patterns);
        }
    }
}

/// The number of distinct check sets that are asked for.
pub open spec fn distinct(items: Map<usize, Shape>) -> nat {
    items.dom().map(|t: usize| items[t].checks).len()
}

/// Arrivals take one planning call for each repository that they belong to. The peak stays,
/// or becomes the number of distinct check sets in one of these, if that is more.
pub proof fn lemma_arrival_counted(
    rules: Rules,
    all: Map<usize, Ask>,
    s: State,
    batch: Map<usize, Ask>,
    now: u64,
)
    requires
        welcome(rules, all, s, batch, now),
    ensures
        ({
            let after = rules.arrive(s, batch, now).stats;
            let peak = after.peak_pending_patterns;
            &&& counted(
                s.stats.planning_calls,
                batch.dom().map(|t: usize| batch[t].repo).len(),
                after.planning_calls,
            )
            &&& s.stats.peak_pending_patterns <= peak
            &&& forall|t: usize| #[trigger]
                batch.contains_key(t) ==> distinct(now_waiting(s, batch, batch[t].repo)) <= peak
            &&& peak == s.stats.peak_pending_patterns || exists|t: usize| #[trigger]
                batch.contains_key(t) && distinct(now_waiting(s, batch, batch[t].repo)) == peak
        }),
{
    let names = listing(touched(batch), |a: Seq<char>, b: Seq<char>| name_lt(a, b));
    let mid = s.joined(batch);
    let after = rules.arrive(s, batch, now).stats;
    lemma_touched(batch);
    names.unique_seq_to_set();
    assert(touched(batch) =~= batch.dom().map(|t: usize| batch[t].repo)) by {
        assert forall|name: Seq<char>| #[trigger] touched(batch).contains(name) implies batch.dom().map(
            |t: usize| batch[t].repo,
        ).contains(name) by {
            let t = choose|t: usize| #[trigger] batch.contains_key(t) && batch[t].repo == name;
            assert(batch.dom().contains(t));
        }
    }
    assert forall|i: int| 0 <= i < names.len() implies mid.repos.contains_key(#[trigger] names[i])
        && inhabited(mid.repos[names[i]].items.dom()) && ready(
        rules.rates,
        now,
        mid.repos[names[i]].items,
        mid.repos[names[i]].plan,
    ) && mid.repos[names[i]].items == now_waiting(s, batch, names[i]) && touched(batch).contains(
        names[i],
    ) by {
        assert(names.to_set().contains(names[i]));
        lemma_filed_ready(rules, all, s, batch, now, names[i]);
        assert(mid.repos[names[i]].items =~= now_waiting(s, batch, names[i]));
    }
    lemma_replans_counted(rules, mid, names, names.len(), now);
    assert forall|t: usize| #[trigger] batch.contains_key(t) implies distinct(
        now_waiting(s, batch, batch[t].repo),
    ) <= after.peak_pending_patterns by {
        assert(touched(batch).contains(batch[t].repo));
        assert(names.to_set().contains(batch[t].repo));
        let i = choose|i: int| 0 <= i < names.len() && names[i] == batch[t].repo;
        assert(distinct(mid.repos[names[i]].items) <= after.peak_pending_patterns);
    }
    if after.peak_pending_patterns != s.stats.peak_pending_patterns {
        let i = choose|i: int|
            0 <= i < names.len() && distinct(mid.repos[#[trigger] names[i]].items)
                == after.peak_pending_patterns;
        assert(touched(batch).contains(names[i]));
        let t = choose|t: usize| #[trigger] batch.contains_key(t) && batch[t].repo == names[i];
        assert(batch.contains_key(t) && distinct(now_waiting(s, batch, batch[t].repo))
            == after.peak_pending_patterns);
    }
}

/// The next time to wake is the earliest that any timer is set for, and of the repositories
/// with a timer set for it the one that goes first by name is served.
pub proof fn lemma_first_timer(rules: Rules, all: Map<usize, Ask>, s: State)
    requires
        sane(rules, all, s),
    ensures
        s.next_wake() is None <==> forall|name: Seq<char>| !#[trigger] s.repos.contains_key(name),
        s.next_wake() matches Some(now) ==> {
            &&& s.repos.contains_key(s.next()) && s.repos[s.next()].wake == Some(now)
            &&& forall|name: Seq<char>| #[trigger]
                s.repos.contains_key(name) && name != s.next() ==> now < s.repos[name].wake->0
                    || now == s.repos[name].wake->0 && name_lt(s.next(), name)
        },
{
    lemma_next(s);
    assert forall|name: Seq<char>| #[trigger] s.repos.contains_key(name) implies s.awake().contains(
        name,
    ) by {}
    if !s.idle() {
        assert(s.awake().contains(s.next()));
    }
}

/// Timers up to a limit ring until the next is beyond it. What is launched comes after what
/// was, at times up to the limit, for jobs that waited; who is not launched still waits.
pub proof fn lemma_wound_down(
    rules: Rules,
    all: Map<usize, Ask>,
    s: State,
    limit: u64,
    inclusive: bool,
)
    requires
        sane(rules, all, s),
        all.dom().finite(),
    ensures
        ({
            let after = rules.advance(s, limit, inclusive);
            let n = s.launches.len() as int;
            &&& forall|name: Seq<char>| #[trigger]
                after.repos.contains_key(name) ==> limit < after.repos[name].wake->0 || !inclusive
                    && limit == after.repos[name].wake->0
            &&& s.launches.is_prefix_of(after.launches)
            &&& forall|k: int|
                n <= k < after.launches.len() ==> (#[trigger] after.launches[k]).at < limit
                    || inclusive && after.launches[k].at == limit
            &&& forall|k: int, t: usize|
                n <= k < after.launches.len() && #[trigger] after.launches[k].jobs.contains(t)
                    ==> s.waiting().contains(t) && !after.waiting().contains(t)
            &&& forall|t: usize| #[trigger]
                s.waiting().contains(t) ==> after.waiting().contains(t) || exists|k: int|
                    n <= k < after.launches.len() && #[trigger] after.launches[k].jobs.contains(t)
            &&& forall|t: usize| #[trigger]
                after.waiting().contains(t) ==> s.waiting().contains(t)
        }),
    decreases s.waiting().len(),
{
    let after = rules.advance(s, limit, inclusive);
    let n = s.launches.len() as int;
    lemma_next(s);
    lemma_advance(rules, all, s, limit, inclusive);
    lemma_next(after);
    assert forall|name: Seq<char>| #[trigger] after.repos.contains_key(name) implies limit
        < after.repos[name].wake->0 || !inclusive && limit == after.repos[name].wake->0 by {
        assert(after.awake().contains(name));
    }
    if s.rung(limit, inclusive) {
        let mid = rules.ring(s);
        let m = mid.launches.len() as int;
        lemma_progress(rules, all, s);
        lemma_ring(rules, all, s);
        lemma_ring_waiting(rules, all, s);
        lemma_ring_jobs(rules, all, s);
        lemma_wound_down(rules, all, mid, limit, inclusive);
        assert forall|k: int| 0 <= k < m implies #[trigger] after.launches[k] == mid.launches[k] by {
            assert(mid.launches == after.launches.subrange(0, m));
        }
        assert(s.launches.is_prefix_of(after.launches)) by {
            assert(s.launches =~= after.launches.subrange(0, n));
        }
        assert forall|t: usize| #[trigger] s.waiting().contains(t) implies after.waiting().contains(
            t,
        ) || exists|k: int|
            n <= k < after.launches.len() && #[trigger] after.launches[k].jobs.contains(t) by {
            if mid.waiting().contains(t) {
                if !after.waiting().contains(t) {
                    let k = choose|k: int|
                        m <= k < after.launches.len() && #[trigger] after.launches[k].jobs.contains(t);
                    assert(n <= k && after.launches[k].jobs.contains(t));
                }
            } else {
                let k = choose|k: int|
                    n <= k < mid.launches.len() && #[trigger] mid.launches[k].jobs.contains(t);
                assert(after.launches[k].jobs.contains(t));
            }
        }
        assert forall|k: int, t: usize|
            n <= k < after.launches.len() && #[trigger] after.launches[k].jobs.contains(
                t,
            ) implies s.waiting().contains(t) && !after.waiting().contains(t) by {
            if k < m {
                assert(mid.launches[k].jobs.contains(t));
                assert(!mid.waiting().contains(t));
            } else {
                assert(mid.waiting().contains(t));
            }
        }
        assert forall|k: int| n <= k < after.launches.len() implies (
        #[trigger] after.launches[k]).at < limit || inclusive && after.launches[k].at == limit by {
            if k < m {
                assert(mid.launches[k].at == s.next_wake()->0);
            }
        }
    } else {
        assert(s.launches =~= after.launches.subrange(0, n));
    }
}

/// One ring launches jobs that waited, and who is not launched still waits.
proof fn lemma_ring_jobs(rules: Rules, all: Map<usize, Ask>, s: State)
    requires
        sane(rules, all, s),
        !s.idle(),
    ensures
        ({
            let after = rules.ring(s);
            let n = s.launches.len() as int;
            &&& n <= after.launches.len()
            &&& forall|k: int| 0 <= k < n ==> #[trigger] after.launches[k] == s.launches[k]
            &&& forall|k: int|
                n <= k < after.launches.len() ==> (#[trigger] after.launches[k]).at
                    == s.next_wake()->0
            &&& forall|k: int, t: usize|
                n <= k < after.launches.len() && #[trigger] after.launches[k].jobs.contains(t)
                    ==> s.waiting().contains(t) && !after.waiting().contains(t)
            &&& forall|t: usize| #[trigger]
                s.waiting().contains(t) && !after.waiting().contains(t) ==> exists|k: int|
                    n <= k < after.launches.len() && #[trigger] after.launches[k].jobs.contains(t)
            &&& forall|t: usize| #[trigger]
                after.waiting().contains(t) ==> s.waiting().contains(t)
        }),
{
    let after = rules.ring(s);
    let n = s.launches.len() as int;
    let now = s.next_wake()->0;
    let repo = s.repos[s.next()];
    let (left, shots) = fired(rules.rates, now, repo);
    lemma_ring(rules, all, s);
    lemma_ring_waiting(rules, all, s);
    lemma_fired(rules, repo);
    assert forall|k: int| n <= k < after.launches.len() implies #[trigger] after.launches[k]
        == shots[k - n] by {}
    assert forall|k: int, t: usize|
        n <= k < after.launches.len() && #[trigger] after.launches[k].jobs.contains(
            t,
        ) implies s.waiting().contains(t) && !after.waiting().contains(t) by {
        assert(shots[k - n].jobs.contains(t));
        assert(repo.items.contains_key(t) && !left.contains_key(t));
        assert(s.repos.contains_key(s.next()) && s.repos[s.next()].items.contains_key(t));
    }
    assert forall|t: usize| #[trigger]
        s.waiting().contains(t) && !after.waiting().contains(t) implies exists|k: int|
        n <= k < after.launches.len() && #[trigger] after.launches[k].jobs.contains(t) by {
        assert(repo.items.contains_key(t) && !left.contains_key(t));
        let i = choose|i: int| 0 <= i < shots.len() && #[trigger] shots[i].jobs.contains(t);
        assert(after.launches[i + n] == shots[i]);
        assert(after.launches[i + n].jobs.contains(t));
    }
}

/// At the start nothing waits, nothing is launched and nothing is counted.
pub proof fn lemma_start()
    ensures
        forall|name: Seq<char>| !#[trigger] State::start().repos.contains_key(name),
        State::start().launches.len() == 0,
        State::start().stats.planning_calls == 0,
        State::start().stats.exact_searches == 0,
        State::start().stats.bounded_searches == 0,
        State::start().stats.search_nodes == 0,
        State::start().stats.search_budget_exhaustions == 0,
        State::start().stats.peak_pending_patterns == 0,
{
}

} // verus!
