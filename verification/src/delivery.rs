//! What a schedule does for the jobs of a workload, in terms of the fields of both.
use vstd::prelude::*;

use crate::bill::{all_known, bill, lemma_bill, names_among, names_of};
use crate::catalog::lemma_catalog;
use crate::entry::{lemma_accepted, lemma_named, proper_job};
use crate::lane::{Launch, Rules};
use crate::ledger::{booked, lemma_schedule};
use crate::listing::{ascending, lemma_ascending};
use crate::model::{spelled, Workload};
use crate::names::{name_lt, texts};
use crate::policy::Policy;
use crate::shape::{checks_of, gather, lemma_gather_urgent};
use crate::simulation::{lemma_acceptable, outcome};
use crate::state_laws::wishes;
use crate::timetable::{could_join, lemma_in_turn};
use crate::workload_laws::{lemma_launched, lemma_spelled, served};

verus! {

/// The jobs, by position in the input, whose IDs are listed.
pub open spec fn aboard(w: Workload, ids: Seq<Seq<char>>) -> Set<usize> {
    Set::new(|i: usize| i < w.jobs@.len() && ids.contains(w.jobs@[i as int].job_id@))
}

/// The seconds that a machine takes for these jobs: it starts up, and runs each check that
/// any of them lists once.
pub open spec fn takes(w: Workload, jobs: Set<usize>) -> nat {
    w.boot_s as nat + bill(w.check_costs_s@, names_among(w, jobs))
}

/// The batch is for jobs of one repository that have all arrived. It is done in time for
/// each of them, and for one of them only just. It lists them in input order.
pub open spec fn just_in_time(w: Workload, batch: (u64, Seq<Seq<char>>)) -> bool {
    let jobs = aboard(w, batch.1);
    &&& forall|i: usize, j: usize| #[trigger]
        jobs.contains(i) && #[trigger] jobs.contains(j) ==> w.jobs@[i as int].repo@
            == w.jobs@[j as int].repo@
    &&& forall|i: usize| #[trigger]
        jobs.contains(i) ==> w.jobs@[i as int].arrived_at_s <= batch.0 && batch.0 + takes(w, jobs)
            <= w.jobs@[i as int].arrived_at_s + w.sla_s
    &&& exists|i: usize| #[trigger]
        jobs.contains(i) && batch.0 + takes(w, jobs) == w.jobs@[i as int].arrived_at_s + w.sla_s
    &&& forall|a: int, b: int|
        0 <= a < b < batch.1.len() ==> exists|i: int, j: int|
            0 <= i < j < w.jobs@.len() && (#[trigger] w.jobs@[i]).job_id@ == #[trigger] batch.1[a]
                && (#[trigger] w.jobs@[j]).job_id@ == #[trigger] batch.1[b]
}

/// The job at `i` is in some batch.
pub open spec fn rides(w: Workload, schedule: Seq<(u64, Seq<Seq<char>>)>, i: usize) -> bool {
    exists|k: int| 0 <= k < schedule.len() && #[trigger] aboard(w, schedule[k].1).contains(i)
}

/// Each job is in exactly one batch.
pub open spec fn each_once(w: Workload, schedule: Seq<(u64, Seq<Seq<char>>)>) -> bool {
    &&& forall|i: usize| i < w.jobs@.len() ==> #[trigger] rides(w, schedule, i)
    &&& forall|k: int, l: int, i: usize|
        0 <= k < schedule.len() && 0 <= l < schedule.len() && #[trigger] aboard(
            w,
            schedule[k].1,
        ).contains(i) && #[trigger] aboard(w, schedule[l].1).contains(i) ==> k == l
}

/// Batches are in order of time, and those of one time in order of repository name.
pub open spec fn in_turn(w: Workload, schedule: Seq<(u64, Seq<Seq<char>>)>) -> bool {
    forall|k: int, l: int, i: usize, j: usize|
        0 <= k < l < schedule.len() && #[trigger] aboard(w, schedule[k].1).contains(i)
            && #[trigger] aboard(w, schedule[l].1).contains(j) ==> {
            ||| schedule[k].0 < schedule[l].0
            ||| schedule[k].0 == schedule[l].0 && (w.jobs@[i as int].repo@
                == w.jobs@[j as int].repo@ || name_lt(
                w.jobs@[i as int].repo@,
                w.jobs@[j as int].repo@,
            ))
        }
}

/// No job comes in a later batch that had arrived, in the same repository, when an earlier
/// one was launched that runs all it lists in time for it.
pub open spec fn none_left_behind(w: Workload, schedule: Seq<(u64, Seq<Seq<char>>)>) -> bool {
    forall|k: int, l: int, i: usize, j: usize|
        0 <= k < l < schedule.len() && #[trigger] aboard(w, schedule[k].1).contains(i)
            && #[trigger] aboard(w, schedule[l].1).contains(j) && w.jobs@[i as int].repo@
            == w.jobs@[j as int].repo@ && w.jobs@[j as int].arrived_at_s <= schedule[k].0
            && names_of(w.jobs@[j as int]).subset_of(names_among(w, aboard(w, schedule[k].1)))
            ==> schedule[k].0 + takes(w, aboard(w, schedule[k].1)) > w.jobs@[j as int].arrived_at_s
            + w.sla_s
}

/// The schedule does what it is for.
pub open spec fn delivers(w: Workload, schedule: Seq<(u64, Seq<Seq<char>>)>) -> bool {
    &&& forall|k: int| 0 <= k < schedule.len() ==> just_in_time(w, #[trigger] schedule[k])
    &&& each_once(w, schedule)
    &&& in_turn(w, schedule)
    &&& none_left_behind(w, schedule)
}

/// All names of an accepted workload have a cost.
proof fn lemma_all_known(w: Workload, jobs: Set<usize>)
    requires
        w.flaw() is None,
    ensures
        names_among(w, jobs).subset_of(w.check_costs_s@.dom()),
        forall|i: int| 0 <= i < w.jobs@.len() ==> all_known(w, #[trigger] w.jobs@[i]),
{
    lemma_accepted(w);
    assert forall|i: int| 0 <= i < w.jobs@.len() implies all_known(w, #[trigger] w.jobs@[i]) by {
        assert(proper_job(w, i));
    }
    assert forall|name: Seq<char>| names_among(w, jobs).contains(
        name,
    ) implies w.check_costs_s@.dom().contains(name) by {
        let i = choose|i: usize| #[trigger]
            jobs.contains(i) && i < w.jobs@.len() && names_of(w.jobs@[i as int]).contains(name);
        let job = w.jobs@[i as int];
        assert(all_known(w, job));
        let k = choose|k: int| 0 <= k < job.checks@.len() && (#[trigger] job.checks@[k])@ == name;
        assert(w.check_costs_s@.contains_key(job.checks@[k]@));
    }
}

/// What jobs ask for together, by position and by name.
pub proof fn lemma_takes(w: Workload, jobs: Set<usize>)
    requires
        w.flaw() is None,
        forall|i: usize| #[trigger] jobs.contains(i) ==> i < w.jobs@.len(),
    ensures
        w.rates().duration(checks_of(wishes(w.asks()), jobs)) == takes(w, jobs),
        forall|c: usize|
            c < w.catalog().len() ==> (names_among(w, jobs).contains(
                #[trigger] w.catalog()[c as int],
            ) <==> checks_of(wishes(w.asks()), jobs).contains(c)),
{
    let catalog = w.catalog();
    let names = names_among(w, jobs);
    let items = wishes(w.asks());
    let checks = checks_of(items, jobs);
    lemma_catalog(w.check_costs_s);
    lemma_all_known(w, jobs);
    assert forall|c: int| 0 <= c < catalog.len() implies (names.contains(#[trigger] catalog[c])
        <==> checks.contains(c as usize)) by {
        if names.contains(catalog[c]) {
            let i = choose|i: usize| #[trigger]
                jobs.contains(i) && i < w.jobs@.len() && names_of(w.jobs@[i as int]).contains(
                    catalog[c],
                );
            lemma_named(w.jobs@[i as int], catalog[c]);
            assert(items[i].checks.contains(c as usize));
            assert(jobs.contains(i));
        }
        if checks.contains(c as usize) {
            let i = choose|i: usize| #[trigger]
                jobs.contains(i) && items[i].checks.contains(c as usize);
            lemma_named(w.jobs@[i as int], catalog[c]);
            assert(jobs.contains(i));
        }
    }
    lemma_bill(w, checks, names);
}

/// The jobs of a launched batch are those that its batch in the schedule lists.
pub proof fn lemma_aboard(w: Workload, policy: Policy, k: int)
    requires
        w.flaw() is None,
        0 <= k < outcome(w, policy).launches.len(),
    ensures
        booked(w.rates(), w.asks(), outcome(w, policy).launches[k]),
        aboard(w, spelled(w.labels(), outcome(w, policy).launches)[k].1) == outcome(
            w,
            policy,
        ).launches[k].jobs,
{
    let launch = outcome(w, policy).launches[k];
    let ids = spelled(w.labels(), outcome(w, policy).launches)[k].1;
    lemma_launched(w, policy, k);
    lemma_spelled(w, launch);
    assert(ids == ascending(launch.jobs).map_values(|t: usize| w.labels()[t as int]));
    assert(aboard(w, ids) =~= served(w, ids));
}

/// A launched batch is just in time.
proof fn lemma_just_in_time(w: Workload, policy: Policy, k: int)
    requires
        w.flaw() is None,
        0 <= k < outcome(w, policy).launches.len(),
    ensures
        just_in_time(w, spelled(w.labels(), outcome(w, policy).launches)[k]),
{
    let launch = outcome(w, policy).launches[k];
    let batch = spelled(w.labels(), outcome(w, policy).launches)[k];
    let jobs = launch.jobs;
    let items = wishes(w.asks());
    lemma_aboard(w, policy, k);
    lemma_launched(w, policy, k);
    lemma_takes(w, jobs);
    let t = choose|t: usize| #[trigger] jobs.contains(t);
    assert(jobs.contains(t));
    assert(jobs.len() > 0);
    lemma_gather_urgent(items, jobs);
    lemma_accepted(w);
    assert forall|i: usize| #[trigger] jobs.contains(i) implies i < w.jobs@.len()
        && items[i].deadline == w.jobs@[i as int].arrived_at_s + w.sla_s && w.jobs@[
        i as int
    ].arrived_at_s <= batch.0 by {
        assert(proper_job(w, i as int));
        assert(w.asks().contains_key(i));
    }
    assert forall|i: usize, j: usize| #[trigger]
        jobs.contains(i) && #[trigger] jobs.contains(j) implies w.jobs@[i as int].repo@ == w.jobs@[
        j as int
    ].repo@ by {
        assert(w.asks()[i].repo == w.asks()[j].repo);
    }
    let u = choose|u: usize| #[trigger]
        jobs.contains(u) && items[u].deadline == gather(items, jobs).deadline;
    assert(jobs.contains(u));
    let order = ascending(jobs);
    lemma_ascending(jobs);
    assert forall|a: int, b: int| 0 <= a < b < batch.1.len() implies exists|i: int, j: int|
        0 <= i < j < w.jobs@.len() && (#[trigger] w.jobs@[i]).job_id@ == #[trigger] batch.1[a] && (
        #[trigger] w.jobs@[j]).job_id@ == #[trigger] batch.1[b] by {
        let i = order[a] as int;
        let j = order[b] as int;
        assert(order.to_set().contains(order[a]) && order.to_set().contains(order[b]));
        assert(w.jobs@[i].job_id@ == batch.1[a]);
        assert(w.jobs@[j].job_id@ == batch.1[b]);
    }
}

/// A job could go along with a launched batch if it lists only checks that the batch runs,
/// and is served in time.
proof fn lemma_could_join(w: Workload, launch: Launch, j: usize)
    requires
        w.flaw() is None,
        booked(w.rates(), w.asks(), launch),
        j < w.jobs@.len(),
        names_of(w.jobs@[j as int]).subset_of(names_among(w, launch.jobs)),
        launch.at + takes(w, launch.jobs) <= w.jobs@[j as int].arrived_at_s + w.sla_s,
    ensures
        could_join(w.rates(), wishes(w.asks()), launch, w.asks()[j].shape),
{
    let items = wishes(w.asks());
    let catalog = w.catalog();
    assert forall|i: usize| #[trigger] launch.jobs.contains(i) implies i < w.jobs@.len() by {
        assert(w.asks().contains_key(i));
    }
    lemma_takes(w, launch.jobs);
    lemma_accepted(w);
    assert(proper_job(w, j as int));
    assert forall|c: usize| w.asks()[j].shape.checks.contains(c) implies checks_of(
        items,
        launch.jobs,
    ).contains(c) by {
        assert(texts(w.jobs@[j as int].checks@).contains(catalog[c as int]));
        lemma_named(w.jobs@[j as int], catalog[c as int]);
        assert(names_among(w, launch.jobs).contains(catalog[c as int]));
    }
    lemma_gather_urgent(items, launch.jobs);
}

/// Every job is in exactly one batch.
proof fn lemma_each_once(w: Workload, policy: Policy)
    requires
        w.flaw() is None,
    ensures
        each_once(w, spelled(w.labels(), outcome(w, policy).launches)),
{
    let launches = outcome(w, policy).launches;
    let schedule = spelled(w.labels(), launches);
    lemma_acceptable(w);
    lemma_schedule(Rules { rates: w.rates(), policy }, w.asks());
    assert forall|i: usize| i < w.jobs@.len() implies #[trigger] rides(w, schedule, i) by {
        assert(w.asks().contains_key(i));
        let k = choose|k: int| 0 <= k < launches.len() && #[trigger] launches[k].jobs.contains(i);
        lemma_aboard(w, policy, k);
        assert(aboard(w, schedule[k].1).contains(i));
    }
    assert forall|k: int, l: int, i: usize|
        0 <= k < schedule.len() && 0 <= l < schedule.len() && #[trigger] aboard(
            w,
            schedule[k].1,
        ).contains(i) && #[trigger] aboard(w, schedule[l].1).contains(i) implies k == l by {
        lemma_aboard(w, policy, k);
        lemma_aboard(w, policy, l);
        assert(launches[k].jobs.contains(i) && launches[l].jobs.contains(i));
    }
}

/// A batch comes after one that is launched before it, or at the same time for a repository
/// that goes first.
proof fn lemma_turn(w: Workload, policy: Policy, k: int, l: int, i: usize, j: usize)
    requires
        w.flaw() is None,
        0 <= k < l < outcome(w, policy).launches.len(),
        outcome(w, policy).launches[k].jobs.contains(i),
        outcome(w, policy).launches[l].jobs.contains(j),
    ensures
        ({
            let launches = outcome(w, policy).launches;
            let one = w.jobs@[i as int].repo@;
            let other = w.jobs@[j as int].repo@;
            &&& launches[k].at <= launches[l].at
            &&& launches[k].at == launches[l].at ==> one == other || name_lt(one, other)
            &&& one == other && w.jobs@[j as int].arrived_at_s <= launches[k].at ==> !could_join(
                w.rates(),
                wishes(w.asks()),
                launches[k],
                w.asks()[j].shape,
            )
        }),
{
    let rules = Rules { rates: w.rates(), policy };
    let launches = outcome(w, policy).launches;
    lemma_acceptable(w);
    lemma_schedule(rules, w.asks());
    lemma_in_turn(rules, w.asks());
    assert(booked(w.rates(), w.asks(), launches[k]));
    assert(booked(w.rates(), w.asks(), launches[l]));
    assert(w.asks().contains_key(i) && w.asks().contains_key(j));
    assert(launches[k].at <= launches[l].at);
}

/// The schedule of an accepted workload serves every job once, in time and as late as
/// possible, in order, and takes along whom it can.
pub proof fn lemma_delivers(w: Workload, policy: Policy)
    requires
        w.flaw() is None,
    ensures
        delivers(w, spelled(w.labels(), outcome(w, policy).launches)),
{
    let launches = outcome(w, policy).launches;
    let schedule = spelled(w.labels(), launches);
    assert forall|k: int| 0 <= k < schedule.len() implies just_in_time(w, #[trigger] schedule[k]) by {
        lemma_just_in_time(w, policy, k);
    }
    lemma_each_once(w, policy);
    assert(in_turn(w, schedule)) by {
        assert forall|k: int, l: int, i: usize, j: usize|
            0 <= k < l < schedule.len() && #[trigger] aboard(w, schedule[k].1).contains(i)
                && #[trigger] aboard(w, schedule[l].1).contains(j) implies schedule[k].0
            < schedule[l].0 || schedule[k].0 == schedule[l].0 && (w.jobs@[i as int].repo@
            == w.jobs@[j as int].repo@ || name_lt(
            w.jobs@[i as int].repo@,
            w.jobs@[j as int].repo@,
        )) by {
            lemma_aboard(w, policy, k);
            lemma_aboard(w, policy, l);
            lemma_turn(w, policy, k, l, i, j);
        }
    }
    assert(none_left_behind(w, schedule)) by {
        assert forall|k: int, l: int, i: usize, j: usize|
            0 <= k < l < schedule.len() && #[trigger] aboard(w, schedule[k].1).contains(i)
                && #[trigger] aboard(w, schedule[l].1).contains(j) && w.jobs@[i as int].repo@
                == w.jobs@[j as int].repo@ && w.jobs@[j as int].arrived_at_s <= schedule[k].0
                && names_of(w.jobs@[j as int]).subset_of(
                names_among(w, aboard(w, schedule[k].1)),
            ) implies schedule[k].0 + takes(w, aboard(w, schedule[k].1)) > w.jobs@[
            j as int
        ].arrived_at_s + w.sla_s by {
            lemma_aboard(w, policy, k);
            lemma_aboard(w, policy, l);
            lemma_turn(w, policy, k, l, i, j);
            if schedule[k].0 + takes(w, launches[k].jobs) <= w.jobs@[j as int].arrived_at_s
                + w.sla_s {
                lemma_could_join(w, launches[k], j);
            }
        }
    }
}

} // verus!
