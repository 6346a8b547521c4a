//! What a repository's batches cost when its jobs all arrive together, in terms of the
//! fields of the workload.
use vstd::prelude::*;

use crate::bill::names_of;
use crate::delivery::{aboard, lemma_aboard, lemma_takes, takes};
use crate::entry::lemma_named;
use crate::frugal::demands;
use crate::lane::Launch;
use crate::listing::{lemma_upto, upto};
use crate::model::{spelled, Workload};
use crate::names::texts;
use crate::partition::{gathered, seconds, splits};
use crate::policy::Policy;
use crate::shape::{checks_of, gather};
use crate::simulation::outcome;
use crate::solo::{mine, only, serves};
use crate::state_laws::wishes;
use crate::team::kinds;
use crate::workload_laws::{lemma_few_kinds, lemma_launched};

verus! {

/// The jobs of a repository.
pub open spec fn jobs_of(w: Workload, name: Seq<char>) -> Set<usize> {
    Set::new(|i: usize| i < w.jobs@.len() && w.jobs@[i as int].repo@ == name)
}

/// The jobs of each batch that serves a repository.
pub open spec fn batches_for(
    w: Workload,
    name: Seq<char>,
    schedule: Seq<(u64, Seq<Seq<char>>)>,
) -> Seq<Set<usize>>
    decreases schedule.len(),
{
    if schedule.len() == 0 {
        Seq::empty()
    } else {
        let rest = batches_for(w, name, schedule.drop_last());
        let jobs = aboard(w, schedule.last().1);
        if exists|i: usize| #[trigger] jobs.contains(i) && w.jobs@[i as int].repo@ == name {
            rest.push(jobs)
        } else {
            rest
        }
    }
}

/// The seconds that machines take for these blocks of jobs, one machine each.
pub open spec fn spent(w: Workload, blocks: Seq<Set<usize>>) -> nat
    decreases blocks.len(),
{
    if blocks.len() == 0 {
        0
    } else {
        spent(w, blocks.drop_last()) + takes(w, blocks.last())
    }
}

proof fn lemma_spent(w: Workload, blocks: Seq<Set<usize>>)
    requires
        w.flaw() is None,
        forall|b: int, i: usize|
            0 <= b < blocks.len() && #[trigger] blocks[b].contains(i) ==> i < w.jobs@.len(),
    ensures
        seconds(w.rates(), gathered(wishes(w.asks()), blocks)) == spent(w, blocks),
    decreases blocks.len(),
{
    if blocks.len() > 0 {
        let init = blocks.drop_last();
        let n = blocks.len() - 1;
        assert forall|b: int, i: usize|
            0 <= b < init.len() && #[trigger] init[b].contains(i) implies i < w.jobs@.len() by {
            assert(blocks[b].contains(i));
        }
        lemma_spent(w, init);
        assert(gathered(wishes(w.asks()), blocks).drop_last() =~= gathered(
            wishes(w.asks()),
            init,
        ));
        assert forall|i: usize| #[trigger] blocks.last().contains(i) implies i < w.jobs@.len() by {
            assert(blocks[n].contains(i));
        }
        lemma_takes(w, blocks.last());
    }
}

/// The batches of the schedule that serve a repository are its launches.
proof fn lemma_batches_for(w: Workload, policy: Policy, name: Seq<char>, k: nat)
    requires
        w.flaw() is None,
        k <= outcome(w, policy).launches.len(),
    ensures
        batches_for(w, name, spelled(w.labels(), outcome(w, policy).launches.take(k as int)))
            == mine(w.asks(), name, outcome(w, policy).launches.take(k as int)).map_values(
            |launch: Launch| launch.jobs,
        ),
    decreases k,
{
    reveal(Seq::filter);
    let launches = outcome(w, policy).launches;
    let part = launches.take(k as int);
    let schedule = spelled(w.labels(), part);
    let jobs_in = |launch: Launch| launch.jobs;
    if k == 0 {
        assert(mine(w.asks(), name, part).map_values(jobs_in) =~= Seq::<Set<usize>>::empty());
    } else {
        let last = launches[k - 1];
        assert(part.drop_last() =~= launches.take(k - 1));
        assert(schedule.drop_last() =~= spelled(w.labels(), launches.take(k - 1)));
        lemma_batches_for(w, policy, name, (k - 1) as nat);
        lemma_aboard(w, policy, k - 1);
        lemma_launched(w, policy, k - 1);
        assert(schedule.last() == spelled(w.labels(), launches)[k - 1]);
        let jobs = aboard(w, schedule.last().1);
        assert(jobs == last.jobs);
        assert((exists|i: usize| #[trigger]
            jobs.contains(i) && w.jobs@[i as int].repo@ == name) <==> serves(
            w.asks(),
            name,
            last,
        )) by {
            assert forall|i: usize| #[trigger] jobs.contains(i) implies w.asks()[i].repo
                == w.jobs@[i as int].repo@ by {
                assert(w.asks().contains_key(i));
            }
        }
        assert(part.last() == last);
        assert(mine(w.asks(), name, part).map_values(jobs_in) =~= batches_for(w, name, schedule));
    }
}

/// Jobs that list the same names ask for the same checks.
pub proof fn lemma_kinds_by_name(w: Workload, name: Seq<char>)
    requires
        w.flaw() is None,
    ensures
        kinds(wishes(w.asks()), only(w.asks(), name).dom()).len() <= jobs_of(w, name).map(
            |i: usize| names_of(w.jobs@[i as int]),
        ).len(),
{
    let dom = only(w.asks(), name).dom();
    let items = wishes(w.asks());
    let listed = jobs_of(w, name).map(|i: usize| names_of(w.jobs@[i as int]));
    let place = |names: Set<Seq<char>>|
        Set::new(|c: usize| c < w.catalog().len() && names.contains(w.catalog()[c as int]));
    assert(dom =~= jobs_of(w, name));
    lemma_upto(w.jobs@.len());
    assert(dom.subset_of(upto(w.jobs@.len())));
    vstd::set_lib::lemma_set_subset_finite(upto(w.jobs@.len()), dom);
    dom.lemma_map_finite(|i: usize| names_of(w.jobs@[i as int]));
    assert forall|i: usize| #[trigger] dom.contains(i) implies place(names_of(w.jobs@[i as int]))
        == items[i].checks by {
        let job = w.jobs@[i as int];
        assert forall|c: usize| #[trigger] place(names_of(job)).contains(c)
            <==> items[i].checks.contains(c) by {
            if c < w.catalog().len() {
                lemma_named(job, w.catalog()[c as int]);
            }
            assert(items[i].checks.contains(c) <==> c < w.catalog().len() && texts(
                job.checks@,
            ).contains(w.catalog()[c as int]));
        }
        assert(place(names_of(job)) =~= items[i].checks);
    }
    assert(kinds(items, dom) =~= listed.map(place)) by {
        assert forall|k: Set<usize>| #[trigger] kinds(items, dom).contains(k) <==> listed.map(
            place,
        ).contains(k) by {
            if kinds(items, dom).contains(k) {
                let i = choose|i: usize| dom.contains(i) && k == items[i].checks;
                assert(jobs_of(w, name).contains(i));
                let names = names_of(w.jobs@[i as int]);
                assert(listed.contains(names));
                assert(place(names) == k);
            }
            if listed.map(place).contains(k) {
                let names = choose|names: Set<Seq<char>>|
                    listed.contains(names) && k == place(names);
                let i = choose|i: usize|
                    jobs_of(w, name).contains(i) && names == names_of(w.jobs@[i as int]);
                assert(dom.contains(i));
                assert(items[i].checks == k);
            }
        }
    }
    vstd::set_lib::lemma_map_size_bound(listed, listed.map(place), place);
}

/// Where the jobs of a repository all arrive at one time, and list at most 12 distinct sets
/// of checks, no division of them into blocks that are each done in time has fewer blocks
/// than they get batches, or, where cost decides, as many that take fewer seconds.
pub proof fn lemma_bargain(
    w: Workload,
    policy: Policy,
    name: Seq<char>,
    now: u64,
    blocks: Seq<Set<usize>>,
)
    requires
        w.flaw() is None,
        forall|i: usize| #[trigger]
            jobs_of(w, name).contains(i) ==> w.jobs@[i as int].arrived_at_s == now,
        jobs_of(w, name).map(|i: usize| names_of(w.jobs@[i as int])).len() <= 12,
        splits(blocks, jobs_of(w, name)),
        forall|b: int| 0 <= b < blocks.len() ==> takes(w, #[trigger] blocks[b]) <= w.sla_s,
    ensures
        ({
            let made = batches_for(
                w,
                name,
                spelled(w.labels(), outcome(w, policy).launches),
            );
            &&& made.len() <= blocks.len()
            &&& policy == Policy::Cost && made.len() == blocks.len() ==> spent(w, made) <= spent(
                w,
                blocks,
            )
        }),
{
    let launches = outcome(w, policy).launches;
    let items = wishes(w.asks());
    let ours = mine(w.asks(), name, launches);
    let made = batches_for(w, name, spelled(w.labels(), launches));
    assert(launches.take(launches.len() as int) =~= launches);
    lemma_batches_for(w, policy, name, launches.len());
    assert(only(w.asks(), name).dom() =~= jobs_of(w, name));
    lemma_kinds_by_name(w, name);
    assert forall|b: int, i: usize|
        0 <= b < blocks.len() && #[trigger] blocks[b].contains(i) implies i < w.jobs@.len() by {
        assert(jobs_of(w, name).contains(i));
    }
    assert forall|b: int| 0 <= b < blocks.len() implies w.rates().duration(
        checks_of(items, #[trigger] blocks[b]),
    ) <= w.sla_s by {
        lemma_takes(w, blocks[b]);
    }
    assert forall|i: int|
        0 <= i < w.jobs.len() && (#[trigger] w.jobs@[i]).repo@ == name implies w.jobs@[i].arrived_at_s
        == now by {
        assert(jobs_of(w, name).contains(i as usize));
    }
    lemma_few_kinds(w, policy, name, now, blocks);
    lemma_spent(w, blocks);
    assert forall|b: int, i: usize|
        0 <= b < made.len() && #[trigger] made[b].contains(i) implies i < w.jobs@.len() by {
        assert(ours[b].jobs == made[b]);
        lemma_mine_launched(w, policy, name, b);
        assert(ours[b].jobs.contains(i));
    }
    lemma_spent(w, made);
    assert(demands(items, ours) =~= gathered(items, made)) by {
        assert forall|b: int| 0 <= b < made.len() implies demands(items, ours)[b] == gather(
            items,
            made[b],
        ) by {
            assert(ours[b].jobs == made[b]);
        }
    }
}

/// What serves a repository is among the launches.
proof fn lemma_mine_launched(w: Workload, policy: Policy, name: Seq<char>, b: int)
    requires
        w.flaw() is None,
        0 <= b < mine(w.asks(), name, outcome(w, policy).launches).len(),
    ensures
        forall|t: usize| #[trigger]
            mine(w.asks(), name, outcome(w, policy).launches)[b].jobs.contains(t) ==> t
                < w.jobs@.len(),
{
    let launches = outcome(w, policy).launches;
    let ours = mine(w.asks(), name, launches);
    let serving = |launch: Launch| serves(w.asks(), name, launch);
    launches.lemma_filter_contains_rev(serving, ours[b]);
    assert(ours.contains(ours[b]));
    let k = choose|k: int| 0 <= k < launches.len() && launches[k] == ours[b];
    lemma_launched(w, policy, k);
}

} // verus!
