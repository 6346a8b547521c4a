//! Which workloads are accepted, and what is said of those that are not, in terms of
//! their fields.
use vstd::prelude::*;

use crate::bill::{all_known, bill, lemma_bill, names_of};
use crate::catalog::lemma_catalog;
use crate::lane::Rules;
use crate::listing::{lemma_listing, lemma_upto, upto};
use crate::model::{
    lemma_flawless, prepares, stranger, Arrival, Flaw, Job, Prepared, Workload,
};
use crate::names::{in_order, texts};
use crate::policy::Policy;
use crate::simulation::outcome;
use crate::state::Ask;

verus! {

/// An earlier job has the same ID.
pub open spec fn repeated(w: Workload, i: int) -> bool {
    exists|j: int| 0 <= j < i && (#[trigger] w.jobs@[j]).job_id@ == w.jobs@[i].job_id@
}

/// Launched on arrival, on a machine of its own, the job is done in time.
pub open spec fn can_make_it(w: Workload, job: Job) -> bool {
    w.boot_s + bill(w.check_costs_s@, names_of(job)) <= w.sla_s
}

/// There is nothing wrong with the job at `i`.
pub open spec fn proper_job(w: Workload, i: int) -> bool {
    let job = w.jobs@[i];
    &&& !repeated(w, i)
    &&& all_known(w, job)
    &&& can_make_it(w, job)
    &&& job.arrived_at_s + w.sla_s <= u64::MAX
}

/// The first name that is not in the catalog is that, and there is none exactly if all
/// names are.
proof fn lemma_stranger(names: Seq<Seq<char>>, catalog: Seq<Seq<char>>)
    ensures
        stranger(names, catalog) is None <==> forall|k: int|
            0 <= k < names.len() ==> catalog.contains(#[trigger] names[k]),
        stranger(names, catalog) matches Some(name) ==> exists|k: int|
            0 <= k < names.len() && #[trigger] names[k] == name && !catalog.contains(name)
                && forall|m: int| 0 <= m < k ==> catalog.contains(#[trigger] names[m]),
    decreases names.len(),
{
    if names.len() > 0 {
        let init = names.drop_last();
        let n = names.len() - 1;
        lemma_stranger(init, catalog);
        assert(names[n] == names.last());
        if stranger(init, catalog) is None {
            assert forall|k: int| 0 <= k < n implies catalog.contains(#[trigger] names[k]) by {
                assert(init[k] == names[k]);
            }
        } else {
            let name = stranger(init, catalog)->0;
            let k = choose|k: int|
                0 <= k < init.len() && #[trigger] init[k] == name && !catalog.contains(name)
                    && forall|m: int| 0 <= m < k ==> catalog.contains(#[trigger] init[m]);
            assert(names[k] == name);
            assert forall|m: int| 0 <= m < k implies catalog.contains(#[trigger] names[m]) by {
                assert(init[m] == names[m]);
            }
        }
    }
}

/// The name that is unknown first among those that a job lists.
pub open spec fn first_unknown(w: Workload, job: Job, check: Seq<char>) -> bool {
    exists|k: int|
        0 <= k < job.checks@.len() && (#[trigger] job.checks@[k])@ == check
            && !w.check_costs_s@.contains_key(check) && forall|m: int|
            0 <= m < k ==> w.check_costs_s@.contains_key((#[trigger] job.checks@[m])@)
}

/// A job's checks are looked up in the catalog: all are known, or the first that is not is
/// named.
pub proof fn lemma_looked_up(w: Workload, job: Job)
    ensures
        stranger(texts(job.checks@), w.catalog()) is None <==> all_known(w, job),
        stranger(texts(job.checks@), w.catalog()) matches Some(check) ==> first_unknown(
            w,
            job,
            check,
        ),
{
    let names = texts(job.checks@);
    let catalog = w.catalog();
    lemma_catalog(w.check_costs_s);
    lemma_stranger(names, catalog);
    assert forall|k: int| 0 <= k < names.len() implies (catalog.contains(#[trigger] names[k])
        <==> w.check_costs_s@.contains_key(job.checks@[k]@)) by {
        assert(catalog.to_set().contains(names[k]) <==> catalog.contains(names[k]));
    }
    if stranger(names, catalog) is None {
        assert forall|k: int| 0 <= k < job.checks@.len() implies w.check_costs_s@.contains_key(
            (#[trigger] job.checks@[k])@,
        ) by {
            assert(catalog.contains(names[k]));
        }
    } else {
        let name = stranger(names, catalog)->0;
        let k = choose|k: int|
            0 <= k < names.len() && #[trigger] names[k] == name && !catalog.contains(name)
                && forall|m: int| 0 <= m < k ==> catalog.contains(#[trigger] names[m]);
        assert(job.checks@[k]@ == name);
        assert(!w.check_costs_s@.contains_key(job.checks@[k]@));
        assert forall|m: int| 0 <= m < k implies w.check_costs_s@.contains_key(
            (#[trigger] job.checks@[m])@,
        ) by {
            assert(catalog.contains(names[m]));
        }
    }
}

/// What a job whose checks are known takes alone.
pub proof fn lemma_alone(w: Workload, job: Job)
    requires
        all_known(w, job),
    ensures
        w.rates().duration(w.wanted(job)) == w.boot_s + bill(w.check_costs_s@, names_of(job)),
{
    let catalog = w.catalog();
    lemma_catalog(w.check_costs_s);
    assert forall|name: Seq<char>| names_of(job).contains(name) implies w.check_costs_s@.dom().contains(
        name,
    ) by {
        let k = choose|k: int| 0 <= k < job.checks@.len() && (#[trigger] job.checks@[k])@ == name;
        assert(w.check_costs_s@.contains_key(job.checks@[k]@));
    }
    assert forall|i: int| 0 <= i < catalog.len() implies (names_of(job).contains(
        #[trigger] catalog[i],
    ) <==> w.wanted(job).contains(i as usize)) by {
        lemma_named(job, catalog[i]);
    }
    lemma_bill(w, w.wanted(job), names_of(job));
}

/// A job lists the names that it lists.
pub proof fn lemma_named(job: Job, name: Seq<char>)
    ensures
        names_of(job).contains(name) <==> texts(job.checks@).contains(name),
{
    let names = texts(job.checks@);
    if names_of(job).contains(name) {
        let k = choose|k: int| 0 <= k < job.checks@.len() && (#[trigger] job.checks@[k])@ == name;
        assert(names[k] == name);
    }
    if names.contains(name) {
        let k = choose|k: int| 0 <= k < names.len() && names[k] == name;
        assert(job.checks@[k]@ == name);
    }
}

/// What is said of one job.
pub open spec fn said_of(w: Workload, i: int, flaw: Flaw) -> bool {
    let job = w.jobs@[i];
    match flaw {
        Flaw::DuplicateJob { job: id } => id == job.job_id@ && repeated(w, i),
        Flaw::UnknownCheck { job: id, check } => id == job.job_id@ && !repeated(w, i)
            && first_unknown(w, job, check),
        Flaw::TooLong { job: id } => id == job.job_id@ && !repeated(w, i) && all_known(w, job)
            && !can_make_it(w, job),
        Flaw::DeadlineOverflow { job: id } => id == job.job_id@ && !repeated(w, i) && all_known(
            w,
            job,
        ) && can_make_it(w, job) && job.arrived_at_s + w.sla_s > u64::MAX,
    }
}

/// Of a job is said what is wrong with it, and of a proper job nothing.
proof fn lemma_said(w: Workload, i: int)
    requires
        0 <= i < w.jobs@.len(),
    ensures
        w.flaw_at(i) is None <==> proper_job(w, i),
        w.flaw_at(i) matches Some(flaw) ==> said_of(w, i, flaw),
{
    let job = w.jobs@[i];
    let ids = w.labels().take(i);
    assert(ids.contains(job.job_id@) <==> repeated(w, i)) by {
        if ids.contains(job.job_id@) {
            let j = choose|j: int| 0 <= j < ids.len() && ids[j] == job.job_id@;
            assert(w.jobs@[j].job_id@ == job.job_id@);
        }
        if repeated(w, i) {
            let j = choose|j: int|
                0 <= j < i && (#[trigger] w.jobs@[j]).job_id@ == w.jobs@[i].job_id@;
            assert(ids[j] == job.job_id@);
        }
    }
    lemma_looked_up(w, job);
    if all_known(w, job) {
        lemma_alone(w, job);
    }
}

/// A workload is accepted exactly if the IDs are distinct, every check that a job lists is
/// in the catalog, every job could finish in time alone, and no deadline is beyond the end
/// of time.
pub proof fn lemma_accepted(w: Workload)
    ensures
        w.flaw() is None <==> forall|i: int|
            0 <= i < w.jobs@.len() ==> #[trigger] proper_job(w, i),
{
    lemma_first_wrong(w, w.jobs@.len());
    if w.flaw() is None {
        assert forall|i: int| 0 <= i < w.jobs@.len() implies #[trigger] proper_job(w, i) by {
            lemma_flawless(w, w.jobs@.len(), i);
            lemma_said(w, i);
        }
    }
}

proof fn lemma_first_wrong(w: Workload, n: nat)
    requires
        n <= w.jobs@.len(),
    ensures
        w.flaw_upto(n) matches Some(flaw) ==> exists|i: int|
            0 <= i < n && #[trigger] said_of(w, i, flaw) && !proper_job(w, i) && forall|j: int|
                0 <= j < i ==> #[trigger] proper_job(w, j),
    decreases n,
{
    if n > 0 {
        lemma_first_wrong(w, (n - 1) as nat);
        if w.flaw_upto((n - 1) as nat) is None && w.flaw_upto(n) is Some {
            lemma_said(w, n - 1);
            assert forall|j: int| 0 <= j < n - 1 implies #[trigger] proper_job(w, j) by {
                lemma_flawless(w, (n - 1) as nat, j);
                lemma_said(w, j);
            }
            assert(said_of(w, n - 1, w.flaw_upto(n)->0));
        }
    }
}

/// What is said of a workload that is refused is said of the first job with something
/// wrong, and is true of it.
pub proof fn lemma_refused(w: Workload)
    ensures
        w.flaw() matches Some(flaw) ==> exists|i: int|
            0 <= i < w.jobs@.len() && #[trigger] said_of(w, i, flaw) && !proper_job(w, i) && forall|
                j: int,
            |
                0 <= j < i ==> #[trigger] proper_job(w, j),
{
    lemma_first_wrong(w, w.jobs@.len());
}

/// The arrival is the job's: it tells its time, its repository, its deadline and its checks
/// by their places among the names in order.
pub open spec fn stands_for(w: Workload, arrival: Arrival, job: Job) -> bool {
    &&& arrival.at == job.arrived_at_s
    &&& arrival.repo@ == job.repo@
    &&& arrival.job.deadline == job.arrived_at_s + w.sla_s
    &&& forall|c: usize| #[trigger]
        arrival.job.checks@.contains(c) <==> c < w.catalog().len() && names_of(job).contains(
            w.catalog()[c as int],
        )
}

/// The workload is prepared: what it costs to start a machine and to run each check, the
/// ID of each job, and an arrival for each in order of time, then of place in the input.
pub open spec fn lined_up(w: Workload, prepared: Prepared) -> bool {
    let arrivals = prepared.arrivals@;
    &&& prepared.costs.boot == w.boot_s
    &&& prepared.costs.checks@.len() == w.catalog().len()
    &&& in_order(w.catalog()) && w.catalog().to_set() == w.check_costs_s@.dom()
    &&& forall|c: int|
        0 <= c < w.catalog().len() ==> #[trigger] prepared.costs.checks@[c]
            == w.check_costs_s@[w.catalog()[c]]
    &&& prepared.labels@.len() == w.jobs@.len()
    &&& forall|i: int|
        0 <= i < w.jobs@.len() ==> (#[trigger] prepared.labels@[i])@ == w.jobs@[i].job_id@
    &&& arrivals.len() == w.jobs@.len()
    &&& forall|k: int|
        0 <= k < arrivals.len() ==> (#[trigger] arrivals[k]).job.token < w.jobs@.len()
            && stands_for(w, arrivals[k], w.jobs@[arrivals[k].job.token as int])
    &&& forall|k: int, l: int|
        0 <= k < l < arrivals.len() ==> (#[trigger] arrivals[k]).at < (#[trigger] arrivals[l]).at
            || arrivals[k].at == arrivals[l].at && arrivals[k].job.token < arrivals[l].job.token
}

/// A workload that is ready to be simulated is lined up.
pub proof fn lemma_lined_up(w: Workload, prepared: Prepared)
    requires
        w.flaw() is None,
        prepares(prepared, w),
    ensures
        lined_up(w, prepared),
{
    let n = w.jobs@.len();
    let arrivals = prepared.arrivals@;
    let order = w.by_arrival();
    let lt = |a: usize, b: usize| w.arrives_before(a, b);
    let tokens = arrivals.map_values(|arrival: Arrival| arrival.job.token);
    assert(n == w.jobs.len());
    lemma_catalog(w.check_costs_s);
    lemma_upto(n);
    w.lemma_arrival_orders(upto(n));
    lemma_listing(upto(n), lt);
    assert(tokens.len() == arrivals.len());
    assert(prepared.costs.checks@ =~= w.rates().checks);
    assert(texts(prepared.labels@).len() == w.labels().len());
    assert forall|i: int| 0 <= i < n implies (#[trigger] prepared.labels@[i])@
        == w.jobs@[i].job_id@ by {
        assert(texts(prepared.labels@)[i] == w.labels()[i]);
    }
    assert forall|k: int| 0 <= k < arrivals.len() implies (#[trigger] arrivals[k]).job.token < n
        && arrivals[k].job.token == order[k] && stands_for(
        w,
        arrivals[k],
        w.jobs@[arrivals[k].job.token as int],
    ) by {
        let t = arrivals[k].job.token;
        assert(tokens[k] == t);
        assert(order.to_set().contains(order[k]));
        assert(arrivals[k]@ == w.asks()[t]);
        let job = w.jobs@[t as int];
        lemma_flawless(w, n, t as int);
        assert forall|c: usize| #[trigger]
            arrivals[k].job.checks@.contains(c) <==> c < w.catalog().len() && names_of(
                job,
            ).contains(w.catalog()[c as int]) by {
            assert(arrivals[k]@.shape.checks == w.wanted(job));
            if c < w.catalog().len() {
                lemma_named(job, w.catalog()[c as int]);
            }
        }
        assert(arrivals[k]@.shape.deadline == arrivals[k].job.deadline);
        assert(arrivals[k]@.at == arrivals[k].at);
        assert(arrivals[k]@.repo == arrivals[k].repo@);
    }
    assert forall|k: int, l: int| 0 <= k < l < arrivals.len() implies (#[trigger] arrivals[k]).at
        < (#[trigger] arrivals[l]).at || arrivals[k].at == arrivals[l].at
        && arrivals[k].job.token < arrivals[l].job.token by {
        assert(lt(order[k], order[l]));
    }
}

/// What is simulated is the workload's: its jobs as they are in the input, what it says that
/// machines and checks cost, and the given policy.
pub proof fn lemma_simulated(w: Workload, policy: Policy, rules: Rules, all: Map<usize, Ask>)
    requires
        w.flaw() is None,
        rules.policy == policy,
        rules.rates.boot == w.boot_s,
        rules.rates.checks.len() == w.catalog().len(),
        forall|c: int|
            0 <= c < w.catalog().len() ==> #[trigger] rules.rates.checks[c]
                == w.check_costs_s@[w.catalog()[c]],
        forall|i: usize| #[trigger] all.contains_key(i) <==> i < w.jobs@.len(),
        forall|i: usize| #[trigger]
            all.contains_key(i) ==> {
                let job = w.jobs@[i as int];
                &&& all[i].at == job.arrived_at_s
                &&& all[i].repo == job.repo@
                &&& all[i].shape.deadline == job.arrived_at_s + w.sla_s
                &&& forall|c: usize| #[trigger]
                    all[i].shape.checks.contains(c) <==> c < w.catalog().len() && names_of(
                        job,
                    ).contains(w.catalog()[c as int])
            },
    ensures
        outcome(w, policy) == rules.run(all),
{
    assert(rules.rates.checks =~= w.rates().checks);
    assert forall|i: usize| #[trigger] all.contains_key(i) implies all[i] == w.asks()[i] by {
        let job = w.jobs@[i as int];
        lemma_flawless(w, w.jobs@.len(), i as int);
        assert(all[i].shape.checks =~= w.wanted(job)) by {
            assert forall|c: usize| #[trigger] all[i].shape.checks.contains(c) <==> w.wanted(
                job,
            ).contains(c) by {
                if c < w.catalog().len() {
                    lemma_named(job, w.catalog()[c as int]);
                }
            }
        }
    }
    assert(all =~= w.asks());
}

} // verus!
