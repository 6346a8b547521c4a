//! What holds of the schedule of a workload, in terms of the jobs and their IDs.
use vstd::prelude::*;

use crate::bits::{bits_lt, lemma_bits_orders};
use crate::foresight::{early, past};
use crate::frugal::{demands, lemma_known_best};
use crate::lane::{Launch, Rules};
use crate::ledger::{booked, lemma_on_time, lemma_schedule};
use crate::listing::{ascending, lemma_ascending, lemma_listing};
use crate::model::{lemma_flawless, positions, spelled, Job, Workload};
use crate::names::texts;
use crate::partition::{beats, gathered, inhabited, lemma_splits_finite, score, splits};
use crate::plan::EXACT_PATTERN_LIMIT;
use crate::plan_best::lemma_effort;
use crate::policy::Policy;
use crate::relabel::{lemma_names, lemma_names_past, renamed_launches};
use crate::renaming::{injects, lemma_renamed_is};
use crate::shape::{checks_of, gather, lemma_gather_urgent, Shape};
use crate::simulation::{lemma_acceptable, outcome};
use crate::solo::{mine, only};
use crate::state_laws::wishes;
use crate::team::{kinds, patterns};

verus! {

/// The jobs with one of these IDs.
pub open spec fn served(w: Workload, ids: Seq<Seq<char>>) -> Set<usize> {
    Set::new(|i: usize| i < w.jobs.len() && ids.contains(w.labels()[i as int]))
}

/// Every job is in exactly one batch, and every ID is a job's.
pub open spec fn complete(w: Workload, schedule: Seq<(u64, Seq<Seq<char>>)>) -> bool {
    &&& forall|k: int, id: Seq<char>|
        0 <= k < schedule.len() && #[trigger] schedule[k].1.contains(id) ==> w.labels().contains(id)
    &&& forall|k: int| 0 <= k < schedule.len() ==> (#[trigger] schedule[k]).1.no_duplicates()
    &&& forall|id: Seq<char>| #[trigger]
        w.labels().contains(id) ==> exists|k: int|
            0 <= k < schedule.len() && #[trigger] schedule[k].1.contains(id)
    &&& forall|k: int, l: int, id: Seq<char>|
        0 <= k < schedule.len() && 0 <= l < schedule.len() && #[trigger] schedule[k].1.contains(id)
            && #[trigger] schedule[l].1.contains(id) ==> k == l
}

/// A batch has jobs of one repository, starts after all of them have arrived, and runs
/// all they ask for before the first of their deadlines.
pub open spec fn fair(w: Workload, batch: (u64, Seq<Seq<char>>)) -> bool {
    let jobs = served(w, batch.1);
    let checks = checks_of(wishes(w.asks()), jobs);
    &&& batch.1.len() > 0
    &&& forall|i: usize, j: usize| #[trigger]
        jobs.contains(i) && #[trigger] jobs.contains(j) ==> w.jobs@[i as int].repo@
            == w.jobs@[j as int].repo@
    &&& forall|i: usize| #[trigger]
        jobs.contains(i) ==> w.jobs@[i as int].arrived_at_s <= batch.0 && batch.0
            + w.rates().duration(checks) <= w.jobs@[i as int].arrived_at_s + w.sla_s
}

/// Different jobs have different IDs.
pub proof fn lemma_labels_apart(w: Workload, i: int, j: int)
    requires
        w.flaw() is None,
        0 <= i < w.jobs.len(),
        0 <= j < w.jobs.len(),
        w.labels()[i] == w.labels()[j],
    ensures
        i == j,
{
    lemma_flawless(w, w.jobs@.len(), i);
    lemma_flawless(w, w.jobs@.len(), j);
    if i < j {
        assert(w.labels().take(j)[i] == w.labels()[j]);
    } else if j < i {
        assert(w.labels().take(i)[j] == w.labels()[i]);
    }
}

/// The IDs of a launched batch are those of its jobs, each once.
pub proof fn lemma_spelled(w: Workload, launch: Launch)
    requires
        w.flaw() is None,
        launch.jobs.finite(),
        forall|t: usize| #[trigger] launch.jobs.contains(t) ==> t < w.jobs.len(),
    ensures
        ({
            let ids = ascending(launch.jobs).map_values(|t: usize| w.labels()[t as int]);
            &&& ids.no_duplicates()
            &&& ids.len() == launch.jobs.len()
            &&& served(w, ids) == launch.jobs
            &&& forall|id: Seq<char>| #[trigger] ids.contains(id) ==> w.labels().contains(id)
        }),
{
    let order = ascending(launch.jobs);
    let ids = order.map_values(|t: usize| w.labels()[t as int]);
    lemma_ascending(launch.jobs);
    assert forall|k: int| 0 <= k < order.len() implies launch.jobs.contains(#[trigger] order[k]) by {
        assert(order.to_set().contains(order[k]));
    }
    assert forall|k: int, l: int| 0 <= k < ids.len() && 0 <= l < ids.len() && k != l implies ids[k]
        != ids[l] by {
        assert(launch.jobs.contains(order[k]) && launch.jobs.contains(order[l]));
        if ids[k] == ids[l] {
            lemma_labels_apart(w, order[k] as int, order[l] as int);
        }
    }
    assert forall|i: usize| #[trigger] served(w, ids).contains(i) <==> launch.jobs.contains(i) by {
        if served(w, ids).contains(i) {
            let k = choose|k: int| 0 <= k < ids.len() && ids[k] == w.labels()[i as int];
            assert(launch.jobs.contains(order[k]));
            lemma_labels_apart(w, order[k] as int, i as int);
        }
        if launch.jobs.contains(i) {
            assert(order.to_set().contains(i));
            let k = choose|k: int| 0 <= k < order.len() && order[k] == i;
            assert(ids[k] == w.labels()[i as int]);
        }
    }
    assert(served(w, ids) =~= launch.jobs);
    assert forall|id: Seq<char>| #[trigger] ids.contains(id) implies w.labels().contains(id) by {
        let k = choose|k: int| 0 <= k < ids.len() && ids[k] == id;
        assert(launch.jobs.contains(order[k]));
        assert(w.labels()[order[k] as int] == id);
    }
}

/// The launches of a workload are of its jobs.
pub proof fn lemma_launched(w: Workload, policy: Policy, k: int)
    requires
        w.flaw() is None,
        0 <= k < outcome(w, policy).launches.len(),
    ensures
        booked(w.rates(), w.asks(), outcome(w, policy).launches[k]),
        forall|t: usize| #[trigger]
            outcome(w, policy).launches[k].jobs.contains(t) ==> t < w.jobs.len(),
{
    let rules = Rules { rates: w.rates(), policy };
    lemma_acceptable(w);
    lemma_schedule(rules, w.asks());
    let launch = rules.run(w.asks()).launches[k];
    assert(booked(w.rates(), w.asks(), launch));
    assert forall|t: usize| #[trigger] launch.jobs.contains(t) implies t < w.jobs.len() by {
        assert(w.asks().contains_key(t));
    }
}

/// A job is in the launched batch exactly if its ID is in the batch of the schedule.
proof fn lemma_listed(w: Workload, policy: Policy, k: int, i: int)
    requires
        w.flaw() is None,
        0 <= k < outcome(w, policy).launches.len(),
        0 <= i < w.jobs.len(),
    ensures
        spelled(w.labels(), outcome(w, policy).launches)[k].1.contains(w.labels()[i])
            <==> outcome(w, policy).launches[k].jobs.contains(i as usize),
{
    let launch = outcome(w, policy).launches[k];
    lemma_launched(w, policy, k);
    lemma_spelled(w, launch);
    let ids = ascending(launch.jobs).map_values(|t: usize| w.labels()[t as int]);
    assert(spelled(w.labels(), outcome(w, policy).launches)[k].1 == ids);
    assert(served(w, ids).contains(i as usize) <==> launch.jobs.contains(i as usize));
}

/// A schedule runs every job in exactly one batch.
pub proof fn lemma_complete(w: Workload, policy: Policy)
    requires
        w.flaw() is None,
    ensures
        complete(w, spelled(w.labels(), outcome(w, policy).launches)),
{
    let rules = Rules { rates: w.rates(), policy };
    let launches = outcome(w, policy).launches;
    let schedule = spelled(w.labels(), launches);
    lemma_acceptable(w);
    lemma_schedule(rules, w.asks());
    assert forall|k: int| 0 <= k < schedule.len() implies (
    #[trigger] schedule[k]).1.no_duplicates() && forall|id: Seq<char>| #[trigger]
        schedule[k].1.contains(id) ==> w.labels().contains(id) by {
        lemma_launched(w, policy, k);
        lemma_spelled(w, launches[k]);
    }
    assert forall|id: Seq<char>| #[trigger] w.labels().contains(id) implies exists|k: int|
        0 <= k < schedule.len() && #[trigger] schedule[k].1.contains(id) by {
        let i = choose|i: int| 0 <= i < w.labels().len() && w.labels()[i] == id;
        assert(w.asks().contains_key(i as usize));
        let k = choose|k: int|
            0 <= k < launches.len() && #[trigger] launches[k].jobs.contains(i as usize);
        lemma_listed(w, policy, k, i);
        assert(schedule[k].1.contains(id));
    }
    assert forall|k: int, l: int, id: Seq<char>|
        0 <= k < schedule.len() && 0 <= l < schedule.len() && #[trigger] schedule[k].1.contains(id)
            && #[trigger] schedule[l].1.contains(id) implies k == l by {
        assert(w.labels().contains(id));
        let i = choose|i: int| 0 <= i < w.labels().len() && w.labels()[i] == id;
        lemma_listed(w, policy, k, i);
        lemma_listed(w, policy, l, i);
        assert(launches[k].jobs.contains(i as usize) && launches[l].jobs.contains(i as usize));
    }
}

/// Every batch of a schedule is fair to its jobs, and starts no earlier than the one
/// before it.
pub proof fn lemma_fair(w: Workload, policy: Policy)
    requires
        w.flaw() is None,
    ensures
        forall|k: int|
            0 <= k < outcome(w, policy).launches.len() ==> fair(
                w,
                #[trigger] spelled(w.labels(), outcome(w, policy).launches)[k],
            ),
        forall|k: int, l: int|
            0 <= k <= l < outcome(w, policy).launches.len() ==> (#[trigger] spelled(
                w.labels(),
                outcome(w, policy).launches,
            )[k]).0 <= (#[trigger] spelled(w.labels(), outcome(w, policy).launches)[l]).0,
{
    let rules = Rules { rates: w.rates(), policy };
    let launches = outcome(w, policy).launches;
    let schedule = spelled(w.labels(), launches);
    lemma_acceptable(w);
    lemma_schedule(rules, w.asks());
    assert forall|k: int| 0 <= k < launches.len() implies fair(w, #[trigger] schedule[k]) by {
        let launch = launches[k];
        lemma_launched(w, policy, k);
        lemma_spelled(w, launch);
        let t = choose|t: usize| #[trigger] launch.jobs.contains(t);
        assert(launch.jobs.contains(t));
        assert(launch.jobs.len() > 0);
        assert(served(w, schedule[k].1) == launch.jobs);
        assert forall|i: usize| #[trigger] launch.jobs.contains(i) implies w.jobs@[
            i as int
        ].arrived_at_s <= launch.at && launch.at + w.rates().duration(
            checks_of(wishes(w.asks()), launch.jobs),
        ) <= w.jobs@[i as int].arrived_at_s + w.sla_s by {
            lemma_on_time(w.rates(), w.asks(), launch, i);
            lemma_flawless(w, w.jobs@.len(), i as int);
        }
        assert forall|i: usize, j: usize| #[trigger]
            launch.jobs.contains(i) && #[trigger] launch.jobs.contains(j) implies w.jobs@[
            i as int
        ].repo@ == w.jobs@[j as int].repo@ by {
            assert(w.asks()[i].repo == w.asks()[j].repo);
        }
    }
}

/// The jobs ask for the same checks in the same repository at the same time.
pub open spec fn same_request(a: Job, b: Job) -> bool {
    &&& a.arrived_at_s == b.arrived_at_s
    &&& a.repo@ == b.repo@
    &&& texts(a.checks@).to_set() == texts(b.checks@).to_set()
}

/// The job at `i` has arrived by the cutoff.
pub open spec fn arrived(w: Workload, i: usize, cutoff: u64) -> bool {
    i < w.jobs.len() && w.jobs@[i as int].arrived_at_s <= cutoff
}

/// By the cutoff the same has been asked for, by jobs that correspond to one another.
pub open spec fn alike_until(
    one: Workload,
    other: Workload,
    f: spec_fn(usize) -> usize,
    cutoff: u64,
) -> bool {
    &&& one.boot_s == other.boot_s
    &&& one.sla_s == other.sla_s
    &&& one.check_costs_s@ == other.check_costs_s@
    &&& forall|i: usize| #[trigger]
        arrived(one, i, cutoff) ==> f(i) < other.jobs.len() && same_request(
            one.jobs@[i as int],
            other.jobs@[f(i) as int],
        )
    &&& forall|i: usize, j: usize| #[trigger]
        arrived(one, i, cutoff) && #[trigger] arrived(one, j, cutoff) && f(i) == f(j) ==> i == j
    &&& forall|j: usize| #[trigger]
        arrived(other, j, cutoff) ==> exists|i: usize| #[trigger]
            arrived(one, i, cutoff) && f(i) == j
}

/// Checks listed in another order, or more than once, are the same request.
proof fn lemma_same_ask(one: Workload, other: Workload, a: Job, b: Job)
    requires
        one.sla_s == other.sla_s,
        one.check_costs_s@ == other.check_costs_s@,
        same_request(a, b),
    ensures
        one.ask(a) == other.ask(b),
{
    let x = texts(a.checks@);
    let y = texts(b.checks@);
    assert forall|name: Seq<char>| x.contains(name) <==> y.contains(name) by {
        assert(x.to_set().contains(name) <==> y.to_set().contains(name));
    }
    assert(positions(x, one.catalog()) =~= positions(y, other.catalog()));
}

/// What is launched by any time is decided by the requests that have arrived by then.
/// Later jobs, the IDs of jobs, their order in the input, the order in which they list
/// their checks, and checks listed twice make no difference.
pub proof fn lemma_requests_decide(
    one: Workload,
    other: Workload,
    f: spec_fn(usize) -> usize,
    cutoff: u64,
    policy: Policy,
)
    requires
        one.flaw() is None,
        other.flaw() is None,
        alike_until(one, other, f, cutoff),
    ensures
        past(outcome(other, policy).launches, cutoff) == renamed_launches(
            f,
            past(outcome(one, policy).launches, cutoff),
        ),
        cutoff == u64::MAX ==> outcome(other, policy).launches == renamed_launches(
            f,
            outcome(one, policy).launches,
        ) && outcome(other, policy).stats == outcome(one, policy).stats,
{
    let rules = Rules { rates: one.rates(), policy };
    let part = early(one.asks(), cutoff);
    let named = early(other.asks(), cutoff);
    lemma_acceptable(one);
    lemma_acceptable(other);
    assert(one.rates() == other.rates()) by {
        assert(one.rates().checks =~= other.rates().checks);
    }
    assert forall|i: usize| #[trigger] part.dom().contains(i) <==> arrived(one, i, cutoff) by {}
    assert forall|i: usize| #[trigger] named.dom().contains(i) <==> arrived(other, i, cutoff) by {}
    assert(injects(f, part.dom())) by {
        assert forall|i: usize, j: usize|
            #![trigger f(i), f(j)]
            part.dom().contains(i) && part.dom().contains(j) && f(i) == f(j) implies i == j by {
            assert(arrived(one, i, cutoff) && arrived(one, j, cutoff));
        }
    }
    assert forall|i: usize| #[trigger] part.contains_key(i) implies named.contains_key(f(i))
        && named[f(i)] == part[i] by {
        assert(part.dom().contains(i));
        assert(arrived(one, i, cutoff));
        lemma_same_ask(one, other, one.jobs@[i as int], other.jobs@[f(i) as int]);
        assert(arrived(other, f(i), cutoff));
        assert(named.dom().contains(f(i)));
    }
    assert forall|j: usize| #[trigger] named.dom().contains(j) <==> part.dom().map(f).contains(j) by {
        if named.dom().contains(j) {
            assert(arrived(other, j, cutoff));
            let i = choose|i: usize| #[trigger] arrived(one, i, cutoff) && f(i) == j;
            assert(part.dom().contains(i));
        }
        if part.dom().map(f).contains(j) {
            let i = choose|i: usize| part.dom().contains(i) && j == f(i);
            assert(part.contains_key(i));
        }
    }
    assert(named.dom() =~= part.dom().map(f));
    lemma_renamed_is(f, part, named);
    lemma_names_past(f, rules, one.asks(), other.asks(), cutoff);
    if cutoff == u64::MAX {
        assert(part =~= one.asks());
        assert(named =~= other.asks());
        lemma_names(f, rules, one.asks());
    }
}

/// Where all jobs of a repository arrive at one time, and ask for few distinct sets of
/// checks, no division of them into batches that are on time uses fewer machines than
/// they are given, or, where cost counts, as many for less time.
pub proof fn lemma_few_kinds(
    w: Workload,
    policy: Policy,
    name: Seq<char>,
    now: u64,
    blocks: Seq<Set<usize>>,
)
    requires
        w.flaw() is None,
        forall|i: int|
            0 <= i < w.jobs.len() && (#[trigger] w.jobs@[i]).repo@ == name
                ==> w.jobs@[i].arrived_at_s == now,
        kinds(wishes(w.asks()), only(w.asks(), name).dom()).len() <= EXACT_PATTERN_LIMIT,
        splits(blocks, only(w.asks(), name).dom()),
        forall|b: int|
            0 <= b < blocks.len() ==> w.rates().duration(
                checks_of(wishes(w.asks()), #[trigger] blocks[b]),
            ) <= w.sla_s,
    ensures
        mine(w.asks(), name, outcome(w, policy).launches).len() <= blocks.len(),
        policy == Policy::Cost ==> !beats(
            score(w.rates(), gathered(wishes(w.asks()), blocks)),
            score(
                w.rates(),
                demands(
                    wishes(w.asks()),
                    mine(w.asks(), name, outcome(w, policy).launches),
                ),
            ),
        ),
{
    let rules = Rules { rates: w.rates(), policy };
    let all = w.asks();
    let part = only(all, name);
    lemma_acceptable(w);
    assert(part.dom().subset_of(all.dom()));
    vstd::set_lib::lemma_set_subset_finite(all.dom(), part.dom());
    assert forall|t: usize| #[trigger] part.contains_key(t) implies part[t].at == now
        && part[t].repo == name && part[t].shape.deadline == now + w.sla_s by {
        lemma_flawless(w, w.jobs@.len(), t as int);
    }
    assert(patterns(wishes(part), part.dom()).len() == kinds(
        wishes(part),
        part.dom(),
    ).len()) by {
        let ks = kinds(wishes(part), part.dom());
        part.dom().lemma_map_finite(|t: usize| wishes(part)[t].checks);
        lemma_bits_orders(ks);
        lemma_listing(ks, |a: Set<usize>, b: Set<usize>| bits_lt(a, b));
    }
    assert(kinds(wishes(part), part.dom()) =~= kinds(wishes(all), part.dom())) by {
        lemma_kinds_agree(wishes(part), wishes(all), part.dom());
    }
    assert(wishes(part).dom() =~= part.dom());
    lemma_effort(w.rates(), now, policy, wishes(part), Seq::empty());
    lemma_splits_finite(blocks, part.dom());
    assert forall|b: int| 0 <= b < blocks.len() implies w.rates().fits(
        gather(wishes(all), #[trigger] blocks[b]),
        now,
    ) by {
        assert(inhabited(blocks[b]));
        let t = choose|t: usize| #[trigger] blocks[b].contains(t);
        assert(blocks[b].contains(t));
        assert(blocks[b].len() > 0);
        lemma_gather_urgent(wishes(all), blocks[b]);
        let u = choose|u: usize| #[trigger]
            blocks[b].contains(u) && wishes(all)[u].deadline == gather(
                wishes(all),
                blocks[b],
            ).deadline;
        assert(part.contains_key(u));
    }
    lemma_known_best(rules, all, name, now, blocks);
}

proof fn lemma_kinds_agree(a: Map<usize, Shape>, b: Map<usize, Shape>, tokens: Set<usize>)
    requires
        forall|t: usize| #[trigger] tokens.contains(t) ==> a[t] == b[t],
    ensures
        kinds(a, tokens) == kinds(b, tokens),
{
    assert forall|k: Set<usize>| #[trigger] kinds(a, tokens).contains(k) <==> kinds(
        b,
        tokens,
    ).contains(k) by {
        if kinds(a, tokens).contains(k) {
            let t = choose|t: usize| tokens.contains(t) && k == a[t].checks;
            assert(tokens.contains(t) && k == b[t].checks);
        }
        if kinds(b, tokens).contains(k) {
            let t = choose|t: usize| tokens.contains(t) && k == b[t].checks;
            assert(tokens.contains(t) && k == a[t].checks);
        }
    }
    assert(kinds(a, tokens) =~= kinds(b, tokens));
}

} // verus!
