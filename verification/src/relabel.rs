//! Renaming the jobs renames the batches, and changes nothing else.
use vstd::prelude::*;

use crate::drive_laws::{lemma_dawn, lemma_dawn_is, lemma_moment, underway};
use crate::foresight::{early, lemma_foresight, past};
use crate::lane::{
    ahead, due, due_order, fired, lemma_ahead_orders, satisfied, shot, volley, Launch, Repo, Rules,
};
use crate::lane_laws::{lemma_due, lemma_fired, steady};
use crate::listing::{lemma_listing_agree, listing};
use crate::names::name_lt;
use crate::partition::inhabited;
use crate::plan::{effort, plan, ready};
use crate::renaming::{
    injects, lemma_arranged_within, lemma_map_inhabited, lemma_map_intersect, lemma_map_union,
    lemma_plan_renamed, lemma_renamed, lemma_renamed_is, lemma_shapes_renamed, lemma_team_renamed,
    renamed, renamed_team, renamed_teams, within,
};
use crate::shape::{gather, Rates, Shape};
use crate::state::{arriving, dawn, filed, is_dawn, later, news, touched, Ask, State};
use crate::state_laws::{
    acceptable, belong, lemma_filed_ready, lemma_next, lemma_progress, lemma_replans, lemma_ring,
    lemma_rings_orders, lemma_touched, lemma_waiting_finite, sane, welcome,
};
use crate::team::Team;

verus! {

/// The repository with its jobs under new names.
pub open spec fn renamed_repo(f: spec_fn(usize) -> usize, repo: Repo) -> Repo {
    Repo { items: renamed(f, repo.items), plan: renamed_teams(f, repo.plan), wake: repo.wake }
}

/// The batch with its jobs under new names.
pub open spec fn renamed_launch(f: spec_fn(usize) -> usize, launch: Launch) -> Launch {
    Launch { at: launch.at, jobs: launch.jobs.map(f) }
}

pub open spec fn renamed_launches(f: spec_fn(usize) -> usize, launches: Seq<Launch>) -> Seq<Launch> {
    launches.map_values(|launch: Launch| renamed_launch(f, launch))
}

/// The state with all jobs under new names.
pub open spec fn renamed_state(f: spec_fn(usize) -> usize, s: State) -> State {
    State {
        repos: s.repos.map_values(|repo: Repo| renamed_repo(f, repo)),
        launches: renamed_launches(f, s.launches),
        stats: s.stats,
    }
}

/// The order of due batches does not depend on names.
proof fn lemma_due_renamed(f: spec_fn(usize) -> usize, rates: Rates, now: u64, plan: Seq<Team>)
    requires
        plan.len() <= usize::MAX,
    ensures
        due_order(rates, now, renamed_teams(f, plan)) == due_order(rates, now, plan),
{
    let named = renamed_teams(f, plan);
    let d = due(rates, now, plan);
    assert(due(rates, now, named) =~= d);
    lemma_due(rates, now, plan);
    let lt1 = |a: usize, b: usize| ahead(named, a, b);
    let lt2 = |a: usize, b: usize| ahead(plan, a, b);
    lemma_ahead_orders(named, d);
    lemma_ahead_orders(plan, d);
    assert forall|x: usize, y: usize| d.contains(x) && d.contains(y) implies #[trigger] lt1(x, y)
        == lt2(x, y) by {
        assert(named[x as int] == renamed_team(f, plan[x as int]));
        assert(named[y as int] == renamed_team(f, plan[y as int]));
    }
    lemma_listing_agree(d, lt1, lt2);
}

/// A batch launched for renamed jobs is the renamed batch.
proof fn lemma_shot_renamed(
    f: spec_fn(usize) -> usize,
    whole: Set<usize>,
    rates: Rates,
    now: u64,
    items: Map<usize, Shape>,
    members: Set<usize>,
)
    requires
        injects(f, whole),
        items.dom().finite(),
        items.dom().subset_of(whole),
        members.subset_of(whole),
    ensures
        shot(rates, now, renamed(f, items), members.map(f)) == match shot(
            rates,
            now,
            items,
            members,
        ) {
            Some(jobs) => Some(jobs.map(f)),
            None => None,
        },
        shot(rates, now, items, members) matches Some(jobs) ==> jobs.subset_of(items.dom()),
{
    let new = renamed(f, items);
    let live = members.intersect(items.dom());
    lemma_renamed(f, items);
    lemma_map_intersect(f, whole, members, items.dom());
    lemma_map_inhabited(f, live);
    lemma_team_renamed(f, items, live);
    let checks = gather(items, live).checks;
    let jobs = satisfied(rates, now, items, checks);
    assert(satisfied(rates, now, new, checks) =~= jobs.map(f)) by {
        assert forall|u: usize| #[trigger] satisfied(rates, now, new, checks).contains(u)
            <==> jobs.map(f).contains(u) by {
            if satisfied(rates, now, new, checks).contains(u) {
                assert(items.dom().map(f).contains(u));
                let t = choose|t: usize| items.dom().contains(t) && u == f(t);
                assert(items.contains_key(t));
                assert(jobs.contains(t));
            }
            if jobs.map(f).contains(u) {
                let t = choose|t: usize| jobs.contains(t) && u == f(t);
                assert(items.contains_key(t));
            }
        }
    }
}

/// Removing renamed jobs.
proof fn lemma_remove_renamed(
    f: spec_fn(usize) -> usize,
    items: Map<usize, Shape>,
    jobs: Set<usize>,
)
    requires
        injects(f, items.dom()),
        jobs.subset_of(items.dom()),
    ensures
        renamed(f, items).remove_keys(jobs.map(f)) == renamed(f, items.remove_keys(jobs)),
{
    let left = items.remove_keys(jobs);
    lemma_renamed(f, items);
    lemma_map_intersect(f, items.dom(), items.dom(), jobs);
    assert(left.dom() =~= items.dom().difference(jobs));
    let other = renamed(f, items).remove_keys(jobs.map(f));
    assert(other.dom() =~= left.dom().map(f));
    assert forall|t: usize| #[trigger] left.contains_key(t) implies other[f(t)] == left[t] by {
        assert(items.contains_key(t));
    }
    lemma_renamed_is(f, left, other);
}

/// A volley for renamed jobs is the renamed volley.
proof fn lemma_volley_renamed(
    f: spec_fn(usize) -> usize,
    whole: Set<usize>,
    rates: Rates,
    now: u64,
    items: Map<usize, Shape>,
    plan: Seq<Team>,
    order: Seq<usize>,
    k: nat,
)
    requires
        injects(f, whole),
        items.dom().finite(),
        items.dom().subset_of(whole),
        within(plan, whole),
        k <= order.len(),
        forall|i: int| 0 <= i < order.len() ==> (#[trigger] order[i]) < plan.len(),
    ensures
        volley(rates, now, renamed(f, items), renamed_teams(f, plan), order, k) == (
            renamed(f, volley(rates, now, items, plan, order, k).0),
            renamed_launches(f, volley(rates, now, items, plan, order, k).1),
        ),
        volley(rates, now, items, plan, order, k).0.dom().subset_of(items.dom()),
        volley(rates, now, items, plan, order, k).0.dom().finite(),
    decreases k,
{
    let named = renamed_teams(f, plan);
    let (left, launches) = volley(rates, now, items, plan, order, k);
    if k == 0 {
        assert(renamed_launches(f, launches) =~= Seq::<Launch>::empty());
    } else {
        lemma_volley_renamed(f, whole, rates, now, items, plan, order, (k - 1) as nat);
        let (before, earlier) = volley(rates, now, items, plan, order, (k - 1) as nat);
        let x = order[k - 1] as int;
        assert(named[x] == renamed_team(f, plan[x]));
        assert(plan[x].members.subset_of(whole));
        lemma_shot_renamed(f, whole, rates, now, before, plan[x].members);
        match shot(rates, now, before, plan[x].members) {
            Some(jobs) => {
                lemma_remove_renamed(f, before, jobs);
                assert(left.dom() =~= before.dom().difference(jobs));
                assert(renamed_launches(f, launches) =~= renamed_launches(f, earlier).push(
                    Launch { at: now, jobs: jobs.map(f) },
                ));
            },
            None => {},
        }
    }
}

/// What is known of a steady repository's tokens.
proof fn lemma_steady_within(rates: Rates, all: Map<usize, Ask>, name: Seq<char>, repo: Repo)
    requires
        steady(rates, repo),
        belong(all, name, repo),
    ensures
        repo.items.dom().subset_of(all.dom()),
        within(repo.plan, all.dom()),
        repo.plan.len() <= usize::MAX,
{
    assert forall|t: usize| repo.items.dom().contains(t) implies all.dom().contains(t) by {
        assert(repo.items.contains_key(t));
    }
    lemma_arranged_within(repo.items, repo.plan, repo.items.dom());
    assert forall|i: int| 0 <= i < repo.plan.len() implies (
    #[trigger] repo.plan[i]).members.subset_of(all.dom()) by {
        assert(repo.plan[i].members.subset_of(repo.items.dom()));
    }
    crate::partition::lemma_splits_len(crate::team::crews(repo.plan), repo.items.dom());
}

proof fn lemma_fired_renamed(
    f: spec_fn(usize) -> usize,
    rates: Rates,
    all: Map<usize, Ask>,
    name: Seq<char>,
    repo: Repo,
    now: u64,
)
    requires
        injects(f, all.dom()),
        steady(rates, repo),
        belong(all, name, repo),
    ensures
        fired(rates, now, renamed_repo(f, repo)) == (
            renamed(f, fired(rates, now, repo).0),
            renamed_launches(f, fired(rates, now, repo).1),
        ),
{
    lemma_steady_within(rates, all, name, repo);
    lemma_due_renamed(f, rates, now, repo.plan);
    lemma_due(rates, now, repo.plan);
    let order = due_order(rates, now, repo.plan);
    lemma_volley_renamed(
        f,
        all.dom(),
        rates,
        now,
        repo.items,
        repo.plan,
        order,
        order.len(),
    );
}

/// Planning anew does not depend on names.
proof fn lemma_planned_renamed(
    f: spec_fn(usize) -> usize,
    rules: Rules,
    whole: Set<usize>,
    now: u64,
    repo: Repo,
)
    requires
        injects(f, whole),
        repo.items.dom().subset_of(whole),
        within(repo.plan, whole),
        ready(rules.rates, now, repo.items, repo.plan),
    ensures
        rules.planned(now, renamed_repo(f, repo)) == match rules.planned(now, repo) {
            Some(next) => Some(renamed_repo(f, next)),
            None => None,
        },
        rules.effort(now, renamed_repo(f, repo)) == rules.effort(now, repo),
{
    lemma_renamed(f, repo.items);
    lemma_map_inhabited(f, repo.items.dom());
    lemma_plan_renamed(f, whole, rules.rates, now, rules.policy, repo.items, repo.plan);
    lemma_shapes_renamed(
        f,
        plan(rules.rates, now, rules.policy, repo.items, repo.plan),
    );
}

/// Planning a repository of the renamed state anew.
proof fn lemma_replan_renamed(
    f: spec_fn(usize) -> usize,
    rules: Rules,
    whole: Set<usize>,
    s: State,
    name: Seq<char>,
    now: u64,
)
    requires
        injects(f, whole),
        s.repos.contains_key(name),
        s.repos[name].items.dom().subset_of(whole),
        within(s.repos[name].plan, whole),
        ready(rules.rates, now, s.repos[name].items, s.repos[name].plan),
    ensures
        rules.replan(renamed_state(f, s), name, now) == renamed_state(
            f,
            rules.replan(s, name, now),
        ),
{
    let named = renamed_state(f, s);
    lemma_planned_renamed(f, rules, whole, now, s.repos[name]);
    assert(named.repos[name] == renamed_repo(f, s.repos[name]));
    assert(rules.replan(named, name, now).repos =~= renamed_state(
        f,
        rules.replan(s, name, now),
    ).repos);
}

/// The first timer does not depend on names of jobs.
proof fn lemma_next_renamed(f: spec_fn(usize) -> usize, s: State)
    requires
        s.repos.dom().finite(),
    ensures
        renamed_state(f, s).next_wake() == s.next_wake(),
        renamed_state(f, s).idle() == s.idle(),
        !s.idle() ==> renamed_state(f, s).next() == s.next(),
        renamed_state(f, s).repos.dom() == s.repos.dom(),
{
    let named = renamed_state(f, s);
    assert(named.repos.dom() =~= s.repos.dom());
    assert forall|n: Seq<char>| #[trigger] named.awake().contains(n) <==> s.awake().contains(n) by {}
    assert(named.awake() =~= s.awake());
    lemma_next(s);
    lemma_next(named);
    if s.idle() {
        assert forall|n: Seq<char>| !#[trigger] named.awake().contains(n) by {
            assert(!s.awake().contains(n));
        }
    } else {
        let n = choose|n: Seq<char>| #[trigger] s.awake().contains(n);
        assert(named.awake().contains(n));
        let a = s.next();
        let b = named.next();
        if a != b {
            assert(s.awake().contains(b) && named.awake().contains(a));
            assert(s.rings(a, b));
            assert(named.rings(b, a));
            assert(s.rings(b, a));
            let lt = |x: Seq<char>, y: Seq<char>| s.rings(x, y);
            lemma_rings_orders(s, s.awake());
            assert(lt(a, b) && lt(b, a));
            assert(lt(a, a));
        }
    }
}

/// One ring in the renamed state.
proof fn lemma_ring_renamed(
    f: spec_fn(usize) -> usize,
    rules: Rules,
    all: Map<usize, Ask>,
    s: State,
)
    requires
        injects(f, all.dom()),
        sane(rules, all, s),
        !s.idle(),
    ensures
        rules.ring(renamed_state(f, s)) == renamed_state(f, rules.ring(s)),
{
    let named = renamed_state(f, s);
    let name = s.next();
    let now = s.next_wake()->0;
    let repo = s.repos[name];
    lemma_next_renamed(f, s);
    lemma_ring(rules, all, s);
    lemma_fired(rules, repo);
    lemma_fired_renamed(f, rules.rates, all, name, repo, now);
    lemma_steady_within(rules.rates, all, name, repo);
    let (left, shots) = fired(rules.rates, now, repo);
    let parked = Repo { items: left, plan: repo.plan, wake: None };
    let mid = State {
        repos: s.repos.insert(name, parked),
        launches: s.launches + shots,
        ..s
    };
    assert(named.repos[name] == renamed_repo(f, repo));
    let named_mid = State {
        repos: named.repos.insert(name, renamed_repo(f, parked)),
        launches: named.launches + renamed_launches(f, shots),
        ..named
    };
    assert(named_mid.repos =~= renamed_state(f, mid).repos);
    assert(named_mid.launches =~= renamed_state(f, mid).launches);
    assert(named_mid == renamed_state(f, mid));
    lemma_replan_renamed(f, rules, all.dom(), mid, name, now);
}

/// The waiting jobs of the renamed state.
proof fn lemma_waiting_renamed(
    f: spec_fn(usize) -> usize,
    rules: Rules,
    all: Map<usize, Ask>,
    s: State,
)
    requires
        injects(f, all.dom()),
        all.dom().finite(),
        sane(rules, all, s),
    ensures
        renamed_state(f, s).waiting() == s.waiting().map(f),
        renamed_state(f, s).waiting().len() == s.waiting().len(),
{
    let named = renamed_state(f, s);
    let w = s.waiting();
    lemma_waiting_finite(rules, all, s);
    assert forall|u: usize| #[trigger] named.waiting().contains(u) <==> w.map(f).contains(u) by {
        if named.waiting().contains(u) {
            let n = choose|n: Seq<char>| #[trigger]
                named.repos.contains_key(n) && named.repos[n].items.contains_key(u);
            assert(s.repos.contains_key(n));
            let items = s.repos[n].items;
            lemma_steady_within(rules.rates, all, n, s.repos[n]);
            lemma_renamed(f, items);
            assert(items.dom().map(f).contains(u));
            let t = choose|t: usize| items.dom().contains(t) && u == f(t);
            assert(s.repos.contains_key(n) && s.repos[n].items.contains_key(t));
            assert(w.contains(t));
        }
        if w.map(f).contains(u) {
            let t = choose|t: usize| w.contains(t) && u == f(t);
            let n = choose|n: Seq<char>| #[trigger]
                s.repos.contains_key(n) && s.repos[n].items.contains_key(t);
            lemma_steady_within(rules.rates, all, n, s.repos[n]);
            lemma_renamed(f, s.repos[n].items);
            assert(named.repos.contains_key(n) && named.repos[n].items.contains_key(u));
        }
    }
    assert(named.waiting() =~= w.map(f));
    assert(vstd::relations::injective_on(f, w)) by {
        assert forall|x: usize, y: usize|
            #![trigger f(x), f(y)]
            w.contains(x) && w.contains(y) && f(x) == f(y) implies x == y by {
            assert(all.dom().contains(x) && all.dom().contains(y));
        }
    }
    vstd::set_lib::lemma_map_size(w, w.map(f), f);
}

/// Advancing the renamed state.
proof fn lemma_advance_renamed(
    f: spec_fn(usize) -> usize,
    rules: Rules,
    all: Map<usize, Ask>,
    s: State,
    limit: u64,
    inclusive: bool,
)
    requires
        injects(f, all.dom()),
        all.dom().finite(),
        sane(rules, all, s),
    ensures
        rules.advance(renamed_state(f, s), limit, inclusive) == renamed_state(
            f,
            rules.advance(s, limit, inclusive),
        ),
    decreases s.waiting().len(),
{
    lemma_next_renamed(f, s);
    lemma_next(s);
    if s.rung(limit, inclusive) {
        lemma_progress(rules, all, s);
        lemma_ring(rules, all, s);
        lemma_ring_renamed(f, rules, all, s);
        lemma_waiting_renamed(f, rules, all, s);
        lemma_waiting_renamed(f, rules, all, rules.ring(s));
        lemma_advance_renamed(f, rules, all, rules.ring(s), limit, inclusive);
    }
}

/// The repositories of arrivals do not depend on their names.
proof fn lemma_touched_renamed(f: spec_fn(usize) -> usize, batch: Map<usize, Ask>)
    requires
        injects(f, batch.dom()),
    ensures
        touched(renamed(f, batch)) == touched(batch),
{
    let named = renamed(f, batch);
    lemma_renamed(f, batch);
    assert forall|n: Seq<char>| #[trigger] touched(named).contains(n) <==> touched(batch).contains(
        n,
    ) by {
        if touched(named).contains(n) {
            let u = choose|u: usize| #[trigger] named.contains_key(u) && named[u].repo == n;
            assert(batch.dom().map(f).contains(u));
            let t = choose|t: usize| batch.dom().contains(t) && u == f(t);
            assert(batch.contains_key(t) && batch[t].repo == n);
        }
        if touched(batch).contains(n) {
            let t = choose|t: usize| #[trigger] batch.contains_key(t) && batch[t].repo == n;
            assert(named.contains_key(f(t)) && named[f(t)].repo == n);
        }
    }
    assert(touched(named) =~= touched(batch));
}

/// The arrivals of one repository under new names.
proof fn lemma_news_renamed(f: spec_fn(usize) -> usize, batch: Map<usize, Ask>, name: Seq<char>)
    requires
        injects(f, batch.dom()),
    ensures
        news(renamed(f, batch), name) == renamed(f, news(batch, name)),
{
    let named = renamed(f, batch);
    let old_news = news(batch, name);
    let new_news = news(named, name);
    lemma_renamed(f, batch);
    assert forall|u: usize| #[trigger] new_news.dom().contains(u) <==> old_news.dom().map(
        f,
    ).contains(u) by {
        if new_news.dom().contains(u) {
            assert(batch.dom().map(f).contains(u));
            let t = choose|t: usize| batch.dom().contains(t) && u == f(t);
            assert(batch.contains_key(t));
            assert(old_news.dom().contains(t));
        }
        if old_news.dom().map(f).contains(u) {
            let t = choose|t: usize| old_news.dom().contains(t) && u == f(t);
            assert(batch.contains_key(t));
        }
    }
    assert(new_news.dom() =~= old_news.dom().map(f));
    assert forall|t: usize| #[trigger] old_news.contains_key(t) implies new_news[f(t)]
        == old_news[t] by {
        assert(batch.contains_key(t));
    }
    lemma_renamed_is(f, old_news, new_news);
}

/// A repository with its arrivals under new names.
proof fn lemma_filed_renamed(
    f: spec_fn(usize) -> usize,
    whole: Set<usize>,
    repo: Repo,
    batch: Map<usize, Ask>,
    name: Seq<char>,
)
    requires
        injects(f, whole),
        repo.items.dom().subset_of(whole),
        batch.dom().subset_of(whole),
    ensures
        filed(renamed_repo(f, repo), renamed(f, batch), name) == renamed_repo(
            f,
            filed(repo, batch, name),
        ),
{
    let fresh = news(batch, name);
    let more = repo.items.union_prefer_right(fresh);
    let other = renamed(f, repo.items).union_prefer_right(renamed(f, fresh));
    assert(fresh.dom().subset_of(batch.dom()));
    lemma_news_renamed(f, batch, name);
    lemma_renamed(f, repo.items);
    lemma_renamed(f, fresh);
    assert(more.dom() =~= repo.items.dom().union(fresh.dom()));
    lemma_map_union(f, repo.items.dom(), fresh.dom());
    assert(other.dom() =~= more.dom().map(f));
    assert forall|t: usize| #[trigger] more.contains_key(t) implies other[f(t)] == more[t] by {
        if fresh.contains_key(t) {
            assert(renamed(f, fresh).contains_key(f(t)));
        } else {
            assert(repo.items.contains_key(t));
            if renamed(f, fresh).contains_key(f(t)) {
                assert(fresh.dom().map(f).contains(f(t)));
                let u = choose|u: usize| fresh.dom().contains(u) && f(t) == f(u);
                assert(whole.contains(u) && whole.contains(t));
            }
        }
    }
    lemma_renamed_is(f, more, other);
}

/// Filing arrivals in the renamed state.
proof fn lemma_joined_renamed(
    f: spec_fn(usize) -> usize,
    rules: Rules,
    all: Map<usize, Ask>,
    s: State,
    batch: Map<usize, Ask>,
)
    requires
        injects(f, all.dom()),
        sane(rules, all, s),
        batch.dom().subset_of(all.dom()),
    ensures
        renamed_state(f, s).joined(renamed(f, batch)) == renamed_state(f, s.joined(batch)),
{
    let named = renamed_state(f, s);
    let left = named.joined(renamed(f, batch));
    let right = renamed_state(f, s.joined(batch));
    lemma_touched_renamed(f, batch);
    assert(left.repos.dom() =~= right.repos.dom());
    assert forall|n: Seq<char>| left.repos.contains_key(n) implies left.repos[n]
        == right.repos[n] by {
        let repo = s.repo(n);
        if s.repos.contains_key(n) {
            lemma_steady_within(rules.rates, all, n, repo);
        }
        lemma_filed_renamed(f, all.dom(), repo, batch, n);
        assert(named.repo(n) == renamed_repo(f, repo)) by {
            if !s.repos.contains_key(n) {
                lemma_renamed(f, repo.items);
                assert(renamed(f, repo.items) =~= Map::<usize, Shape>::empty());
                assert(renamed_teams(f, repo.plan) =~= Seq::<Team>::empty());
            }
        }
    }
    assert(left.repos =~= right.repos);
}

/// Planning listed repositories anew in the renamed state.
proof fn lemma_replans_renamed(
    f: spec_fn(usize) -> usize,
    rules: Rules,
    whole: Set<usize>,
    s: State,
    names: Seq<Seq<char>>,
    k: nat,
    now: u64,
)
    requires
        injects(f, whole),
        k <= names.len(),
        names.no_duplicates(),
        forall|i: int|
            0 <= i < names.len() ==> s.repos.contains_key(#[trigger] names[i]) && inhabited(
                s.repos[names[i]].items.dom(),
            ) && s.repos[names[i]].items.dom().subset_of(whole) && within(
                s.repos[names[i]].plan,
                whole,
            ) && ready(rules.rates, now, s.repos[names[i]].items, s.repos[names[i]].plan),
    ensures
        rules.replans(renamed_state(f, s), names, k, now) == renamed_state(
            f,
            rules.replans(s, names, k, now),
        ),
    decreases k,
{
    if k > 0 {
        let name = names[k - 1];
        let before = rules.replans(s, names, (k - 1) as nat, now);
        lemma_replans_renamed(f, rules, whole, s, names, (k - 1) as nat, now);
        lemma_replans(rules, s, names, (k - 1) as nat, now);
        assert(s.repos.contains_key(names[k - 1]));
        assert(before.repos[name] == s.repos[name]);
        lemma_replan_renamed(f, rules, whole, before, name, now);
    }
}

/// Arrivals in the renamed state.
proof fn lemma_arrive_renamed(
    f: spec_fn(usize) -> usize,
    rules: Rules,
    all: Map<usize, Ask>,
    s: State,
    batch: Map<usize, Ask>,
    now: u64,
)
    requires
        injects(f, all.dom()),
        welcome(rules, all, s, batch, now),
    ensures
        rules.arrive(renamed_state(f, s), renamed(f, batch), now) == renamed_state(
            f,
            rules.arrive(s, batch, now),
        ),
{
    let names = listing(touched(batch), |a: Seq<char>, b: Seq<char>| name_lt(a, b));
    let mid = s.joined(batch);
    assert forall|t: usize| batch.dom().contains(t) implies all.dom().contains(t) by {
        assert(batch.contains_key(t));
    }
    lemma_touched(batch);
    lemma_touched_renamed(f, batch);
    lemma_joined_renamed(f, rules, all, s, batch);
    assert forall|i: int| 0 <= i < names.len() implies mid.repos.contains_key(#[trigger] names[i])
        && inhabited(mid.repos[names[i]].items.dom()) && mid.repos[names[i]].items.dom().subset_of(
        all.dom(),
    ) && within(mid.repos[names[i]].plan, all.dom()) && ready(
        rules.rates,
        now,
        mid.repos[names[i]].items,
        mid.repos[names[i]].plan,
    ) by {
        let n = names[i];
        assert(names.to_set().contains(n));
        lemma_filed_ready(rules, all, s, batch, now, n);
        assert(belong(all, n, mid.repos[n]));
        assert forall|t: usize| mid.repos[n].items.dom().contains(t) implies all.dom().contains(
            t,
        ) by {
            assert(mid.repos[n].items.contains_key(t));
        }
        if s.repos.contains_key(n) {
            lemma_steady_within(rules.rates, all, n, s.repos[n]);
        }
    }
    lemma_replans_renamed(f, rules, all.dom(), mid, names, names.len(), now);
}

/// The first arrivals under new names, and those that are left.
proof fn lemma_dawn_renamed(f: spec_fn(usize) -> usize, rest: Map<usize, Ask>, now: u64)
    requires
        injects(f, rest.dom()),
        is_dawn(rest, now),
    ensures
        is_dawn(renamed(f, rest), now),
        arriving(renamed(f, rest), now) == renamed(f, arriving(rest, now)),
        later(renamed(f, rest), now) == renamed(f, later(rest, now)),
{
    let named = renamed(f, rest);
    lemma_renamed(f, rest);
    let x = choose|x: usize| #[trigger] rest.contains_key(x) && rest[x].at == now;
    assert(named.contains_key(f(x)) && named[f(x)].at == now);
    assert forall|u: usize| #[trigger] named.contains_key(u) implies now <= named[u].at by {
        let t = choose|t: usize| rest.dom().contains(t) && u == f(t);
        assert(rest.contains_key(t));
    }
    lemma_part_renamed(f, rest, arriving(rest, now), arriving(named, now));
    lemma_part_renamed(f, rest, later(rest, now), later(named, now));
}

/// A part of the arrivals chosen by what they ask for.
proof fn lemma_part_renamed(
    f: spec_fn(usize) -> usize,
    rest: Map<usize, Ask>,
    part: Map<usize, Ask>,
    other: Map<usize, Ask>,
)
    requires
        injects(f, rest.dom()),
        part.dom().subset_of(rest.dom()),
        other.dom().subset_of(renamed(f, rest).dom()),
        forall|t: usize| #[trigger] part.contains_key(t) ==> part[t] == rest[t],
        forall|u: usize| #[trigger] other.contains_key(u) ==> other[u] == renamed(f, rest)[u],
        forall|t: usize| #[trigger]
            rest.contains_key(t) ==> (part.contains_key(t) <==> other.contains_key(f(t))),
    ensures
        other == renamed(f, part),
{
    lemma_renamed(f, rest);
    assert forall|u: usize| #[trigger] other.dom().contains(u) <==> part.dom().map(f).contains(
        u,
    ) by {
        if other.dom().contains(u) {
            assert(renamed(f, rest).dom().contains(u));
            let t = choose|t: usize| rest.dom().contains(t) && u == f(t);
            assert(rest.contains_key(t));
            assert(part.dom().contains(t));
        }
        if part.dom().map(f).contains(u) {
            let t = choose|t: usize| part.dom().contains(t) && u == f(t);
            assert(rest.contains_key(t));
        }
    }
    assert(other.dom() =~= part.dom().map(f));
    assert forall|t: usize| #[trigger] part.contains_key(t) implies other[f(t)] == part[t] by {
        assert(rest.contains_key(t));
        assert(other.contains_key(f(t)));
    }
    lemma_renamed_is(f, part, other);
}

/// Going through renamed arrivals.
proof fn lemma_drive_renamed(
    f: spec_fn(usize) -> usize,
    rules: Rules,
    all: Map<usize, Ask>,
    s: State,
    rest: Map<usize, Ask>,
)
    requires
        injects(f, all.dom()),
        underway(rules, all, s, rest),
    ensures
        rules.drive(renamed_state(f, s), renamed(f, rest)) == renamed_state(
            f,
            rules.drive(s, rest),
        ),
        sane(rules, all, rules.drive(s, rest)),
    decreases rest.dom().len(),
{
    assert forall|t: usize| rest.dom().contains(t) implies all.dom().contains(t) by {
        assert(rest.contains_key(t));
    }
    vstd::set_lib::lemma_set_subset_finite(all.dom(), rest.dom());
    let named = renamed(f, rest);
    lemma_renamed(f, rest);
    rest.dom().lemma_map_finite(f);
    if rest.dom().len() == 0 {
        assert(rest.dom() =~= Set::empty());
        assert(named.dom() =~= Set::empty());
    } else {
        let now = dawn(rest);
        let batch = arriving(rest, now);
        let s1 = rules.advance(s, now, false);
        let s2 = rules.arrive(s1, batch, now);
        let s3 = rules.moment(s, batch, now);
        lemma_dawn(rest);
        lemma_dawn_renamed(f, rest, now);
        lemma_dawn_is(named, now);
        let x = choose|x: usize| #[trigger] rest.contains_key(x) && rest[x].at == now;
        assert(named.dom().contains(f(x)));
        lemma_dawn(named);
        lemma_moment(rules, all, s, rest, now);
        lemma_advance_renamed(f, rules, all, s, now, false);
        lemma_arrive_renamed(f, rules, all, s1, batch, now);
        lemma_advance_renamed(f, rules, all, s2, now, true);
        lemma_drive_renamed(f, rules, all, s3, later(rest, now));
        assert(rules.moment(renamed_state(f, s), renamed(f, batch), now) == renamed_state(f, s3));
        assert(rules.drive(renamed_state(f, s), named) == rules.drive(
            renamed_state(f, s3),
            later(named, now),
        ));
    }
}

/// What the jobs are called decides nothing: under other names the same batches are
/// launched at the same times, and the same work is counted.
pub proof fn lemma_names(f: spec_fn(usize) -> usize, rules: Rules, all: Map<usize, Ask>)
    requires
        injects(f, all.dom()),
        acceptable(rules.rates, all),
    ensures
        rules.run(renamed(f, all)).launches == renamed_launches(f, rules.run(all).launches),
        rules.run(renamed(f, all)).stats == rules.run(all).stats,
{
    let start = State::start();
    assert(underway(rules, all, start, all));
    assert(renamed_state(f, start).repos =~= start.repos);
    assert(renamed_state(f, start).launches =~= start.launches);
    lemma_drive_renamed(f, rules, all, start, all);
    lemma_advance_renamed(f, rules, all, rules.drive(start, all), u64::MAX, true);
}

proof fn lemma_past_renamed(f: spec_fn(usize) -> usize, launches: Seq<Launch>, cutoff: u64)
    ensures
        past(renamed_launches(f, launches), cutoff) == renamed_launches(f, past(launches, cutoff)),
    decreases launches.len(),
{
    reveal(Seq::filter);
    let named = renamed_launches(f, launches);
    if launches.len() == 0 {
        assert(past(named, cutoff) =~= renamed_launches(f, past(launches, cutoff)));
    } else {
        let init = launches.drop_last();
        lemma_past_renamed(f, init, cutoff);
        assert(named.drop_last() =~= renamed_launches(f, init));
        assert(past(named, cutoff) =~= renamed_launches(f, past(launches, cutoff)));
    }
}

/// What is launched by the cutoff depends neither on the jobs that arrive after it, nor
/// on what those that arrive by it are called.
pub proof fn lemma_names_past(
    f: spec_fn(usize) -> usize,
    rules: Rules,
    one: Map<usize, Ask>,
    other: Map<usize, Ask>,
    cutoff: u64,
)
    requires
        acceptable(rules.rates, one),
        acceptable(rules.rates, other),
        injects(f, early(one, cutoff).dom()),
        early(other, cutoff) == renamed(f, early(one, cutoff)),
    ensures
        past(rules.run(other).launches, cutoff) == renamed_launches(
            f,
            past(rules.run(one).launches, cutoff),
        ),
{
    let part = early(one, cutoff);
    let named = early(other, cutoff);
    assert(part.dom().subset_of(one.dom()));
    assert(named.dom().subset_of(other.dom()));
    vstd::set_lib::lemma_set_subset_finite(one.dom(), part.dom());
    vstd::set_lib::lemma_len_subset(part.dom(), one.dom());
    vstd::set_lib::lemma_set_subset_finite(other.dom(), named.dom());
    vstd::set_lib::lemma_len_subset(named.dom(), other.dom());
    assert(early(part, cutoff) =~= part);
    assert(early(named, cutoff) =~= named);
    lemma_foresight(rules, one, part, cutoff);
    lemma_foresight(rules, other, named, cutoff);
    lemma_names(f, rules, part);
    lemma_past_renamed(f, rules.run(part).launches, cutoff);
}

} // verus!
