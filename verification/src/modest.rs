//! Workloads whose repositories ask for few distinct sets of checks never get a search that
//! could be cut short.
use vstd::prelude::*;

use crate::bargain::{jobs_of, lemma_kinds_by_name};
use crate::bill::names_of;
use crate::drive_laws::{lemma_dawn, lemma_moment, underway};
use crate::lane::{fired, Repo, Rules};
use crate::lane_laws::lemma_fired;
use crate::listing::listing;
use crate::model::Workload;
use crate::names::name_lt;
use crate::partition::inhabited;
use crate::policy::{Policy, Stats};
use crate::replanning::distinct;
use crate::simulation::{lemma_acceptable, outcome};
use crate::solo::only;
use crate::state::{arriving, dawn, later, touched, Ask, State};
use crate::state_laws::{
    acceptable, belong, lemma_arrive, lemma_filed_ready, lemma_next, lemma_progress, lemma_replans,
    lemma_ring, lemma_touched, sane, welcome, wishes,
};
use crate::team::kinds;
use crate::thrift::lemma_search_limits;

verus! {

/// Every repository asks for at most 12 distinct sets of checks.
pub open spec fn modest(all: Map<usize, Ask>) -> bool {
    forall|name: Seq<char>|
        (#[trigger] kinds(wishes(all), only(all, name).dom())).len() <= 12
}

/// No bounded search has been made, and no more than 12 sets were planned at a time.
pub open spec fn untroubled(stats: Stats) -> bool {
    &&& stats.bounded_searches == 0
    &&& stats.search_nodes == 0
    &&& stats.search_budget_exhaustions == 0
    &&& stats.peak_pending_patterns <= 12
}

/// What waits in a modest repository asks for few sets.
proof fn lemma_few(all: Map<usize, Ask>, name: Seq<char>, repo: Repo)
    requires
        all.dom().finite(),
        modest(all),
        belong(all, name, repo),
    ensures
        repo.items.dom().finite(),
        distinct(repo.items) <= 12,
{
    let part = only(all, name).dom();
    let wide = kinds(wishes(all), part);
    let few = repo.items.dom().map(|t: usize| repo.items[t].checks);
    assert(part.subset_of(all.dom()));
    vstd::set_lib::lemma_set_subset_finite(all.dom(), part);
    part.lemma_map_finite(|t: usize| wishes(all)[t].checks);
    assert(repo.items.dom().subset_of(part)) by {
        assert forall|t: usize| repo.items.dom().contains(t) implies part.contains(t) by {
            assert(repo.items.contains_key(t));
        }
    }
    vstd::set_lib::lemma_set_subset_finite(part, repo.items.dom());
    assert forall|k: Set<usize>| few.contains(k) implies wide.contains(k) by {
        let t = choose|t: usize| repo.items.dom().contains(t) && k == repo.items[t].checks;
        assert(repo.items.contains_key(t));
        assert(part.contains(t) && wishes(all)[t].checks == k);
    }
    vstd::set_lib::lemma_len_subset(few, wide);
}

/// Planning a modest repository.
proof fn lemma_replan_modest(
    rules: Rules,
    all: Map<usize, Ask>,
    s: State,
    name: Seq<char>,
    now: u64,
)
    requires
        all.dom().finite(),
        modest(all),
        belong(all, name, s.repos[name]),
        untroubled(s.stats),
    ensures
        untroubled(rules.replan(s, name, now).stats),
{
    let repo = s.repos[name];
    lemma_few(all, name, repo);
    lemma_search_limits(rules.rates, now, rules.policy, repo.items, repo.plan);
}

proof fn lemma_ring_modest(rules: Rules, all: Map<usize, Ask>, s: State)
    requires
        all.dom().finite(),
        modest(all),
        sane(rules, all, s),
        !s.idle(),
        untroubled(s.stats),
    ensures
        untroubled(rules.ring(s).stats),
{
    let name = s.next();
    let now = s.next_wake()->0;
    let repo = s.repos[name];
    let (left, launches) = fired(rules.rates, now, repo);
    lemma_ring(rules, all, s);
    lemma_fired(rules, repo);
    let parked = Repo { items: left, plan: repo.plan, wake: None };
    let mid = State {
        repos: s.repos.insert(name, parked),
        launches: s.launches + launches,
        ..s
    };
    assert(belong(all, name, parked)) by {
        assert forall|t: usize| #[trigger] left.contains_key(t) implies all.contains_key(t)
            && all[t].repo == name && left[t] == all[t].shape by {
            assert(left.dom().contains(t));
            assert(repo.items.contains_key(t));
        }
    }
    assert(mid.repos[name] == parked);
    lemma_replan_modest(rules, all, mid, name, now);
}

proof fn lemma_advance_modest(
    rules: Rules,
    all: Map<usize, Ask>,
    s: State,
    limit: u64,
    inclusive: bool,
)
    requires
        all.dom().finite(),
        modest(all),
        sane(rules, all, s),
        untroubled(s.stats),
    ensures
        untroubled(rules.advance(s, limit, inclusive).stats),
    decreases s.waiting().len(),
{
    lemma_next(s);
    if s.rung(limit, inclusive) {
        lemma_progress(rules, all, s);
        lemma_ring(rules, all, s);
        lemma_ring_modest(rules, all, s);
        lemma_advance_modest(rules, all, rules.ring(s), limit, inclusive);
    }
}

proof fn lemma_replans_modest(
    rules: Rules,
    all: Map<usize, Ask>,
    s: State,
    names: Seq<Seq<char>>,
    k: nat,
    now: u64,
)
    requires
        all.dom().finite(),
        modest(all),
        k <= names.len(),
        names.no_duplicates(),
        untroubled(s.stats),
        forall|i: int|
            0 <= i < names.len() ==> s.repos.contains_key(#[trigger] names[i]) && inhabited(
                s.repos[names[i]].items.dom(),
            ) && belong(all, names[i], s.repos[names[i]]),
    ensures
        untroubled(rules.replans(s, names, k, now).stats),
    decreases k,
{
    if k > 0 {
        let before = rules.replans(s, names, (k - 1) as nat, now);
        lemma_replans_modest(rules, all, s, names, (k - 1) as nat, now);
        lemma_replans(rules, s, names, (k - 1) as nat, now);
        assert(s.repos.contains_key(names[k - 1]));
        assert(before.repos[names[k - 1]] == s.repos[names[k - 1]]);
        lemma_replan_modest(rules, all, before, names[k - 1], now);
    }
}

proof fn lemma_arrive_modest(
    rules: Rules,
    all: Map<usize, Ask>,
    s: State,
    batch: Map<usize, Ask>,
    now: u64,
)
    requires
        welcome(rules, all, s, batch, now),
        modest(all),
        untroubled(s.stats),
    ensures
        untroubled(rules.arrive(s, batch, now).stats),
{
    let names = listing(touched(batch), |a: Seq<char>, b: Seq<char>| name_lt(a, b));
    let mid = s.joined(batch);
    lemma_touched(batch);
    assert forall|i: int| 0 <= i < names.len() implies mid.repos.contains_key(#[trigger] names[i])
        && inhabited(mid.repos[names[i]].items.dom()) && belong(
        all,
        names[i],
        mid.repos[names[i]],
    ) by {
        assert(names.to_set().contains(names[i]));
        lemma_filed_ready(rules, all, s, batch, now, names[i]);
    }
    lemma_replans_modest(rules, all, mid, names, names.len(), now);
}

proof fn lemma_drive_modest(rules: Rules, all: Map<usize, Ask>, s: State, rest: Map<usize, Ask>)
    requires
        underway(rules, all, s, rest),
        modest(all),
        untroubled(s.stats),
    ensures
        sane(rules, all, rules.drive(s, rest)),
        untroubled(rules.drive(s, rest).stats),
    decreases rest.dom().len(),
{
    assert forall|t: usize| rest.dom().contains(t) implies all.dom().contains(t) by {
        assert(rest.contains_key(t));
    }
    vstd::set_lib::lemma_set_subset_finite(all.dom(), rest.dom());
    if rest.dom().len() > 0 {
        lemma_dawn(rest);
        let now = dawn(rest);
        let batch = arriving(rest, now);
        let s1 = rules.advance(s, now, false);
        lemma_moment(rules, all, s, rest, now);
        lemma_advance_modest(rules, all, s, now, false);
        lemma_arrive_modest(rules, all, s1, batch, now);
        lemma_arrive(rules, all, s1, batch, now);
        lemma_advance_modest(rules, all, rules.arrive(s1, batch, now), now, true);
        lemma_drive_modest(rules, all, rules.moment(s, batch, now), later(rest, now));
    }
}

proof fn lemma_run_modest(rules: Rules, all: Map<usize, Ask>)
    requires
        acceptable(rules.rates, all),
        modest(all),
    ensures
        untroubled(rules.run(all).stats),
{
    assert(underway(rules, all, State::start(), all));
    lemma_drive_modest(rules, all, State::start(), all);
    lemma_advance_modest(rules, all, rules.drive(State::start(), all), u64::MAX, true);
}

/// If the jobs of each repository list at most 12 distinct sets of checks, every search is a
/// full one: none is bounded, no node is counted, and none is cut short.
pub proof fn lemma_modest(w: Workload, policy: Policy)
    requires
        w.flaw() is None,
        forall|name: Seq<char>|
            (#[trigger] jobs_of(w, name)).map(|i: usize| names_of(w.jobs@[i as int])).len() <= 12,
    ensures
        outcome(w, policy).stats.bounded_searches == 0,
        outcome(w, policy).stats.search_nodes == 0,
        outcome(w, policy).stats.search_budget_exhaustions == 0,
        outcome(w, policy).stats.peak_pending_patterns <= 12,
{
    lemma_acceptable(w);
    assert forall|name: Seq<char>|
        (#[trigger] kinds(wishes(w.asks()), only(w.asks(), name).dom())).len() <= 12 by {
        lemma_kinds_by_name(w, name);
        assert(jobs_of(w, name).map(|i: usize| names_of(w.jobs@[i as int])).len() <= 12);
    }
    lemma_run_modest(Rules { rates: w.rates(), policy }, w.asks());
}

} // verus!
