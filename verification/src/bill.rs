//! What checks cost by name: each distinct name once.
use vstd::prelude::*;

use crate::catalog::lemma_catalog;
use crate::model::{Job, Workload};
use crate::shape::work_upto;

verus! {

/// The seconds of running each of the named checks once.
pub open spec fn bill(costs: Map<Seq<char>, u64>, names: Set<Seq<char>>) -> nat
    decreases names.len(),
{
    if names.finite() && names.len() > 0 {
        costs[names.choose()] as nat + bill(costs, names.remove(names.choose()))
    } else {
        0
    }
}

/// One more name costs its own seconds more, whatever the order of adding up.
pub proof fn lemma_bill_insert(costs: Map<Seq<char>, u64>, names: Set<Seq<char>>, name: Seq<char>)
    requires
        names.finite(),
        !names.contains(name),
    ensures
        bill(costs, names.insert(name)) == bill(costs, names) + costs[name] as nat,
    decreases names.len(),
{
    let more = names.insert(name);
    let x = more.choose();
    assert(more.contains(x)) by {
        assert(more.contains(name));
    }
    if x == name {
        assert(more.remove(x) =~= names);
    } else {
        let fewer = names.remove(x);
        assert(more.remove(x) =~= fewer.insert(name));
        lemma_bill_insert(costs, fewer, name);
        lemma_bill_insert(costs, fewer, x);
        assert(fewer.insert(x) =~= names);
    }
}

/// No names cost nothing.
pub proof fn lemma_bill_empty(costs: Map<Seq<char>, u64>)
    ensures
        bill(costs, Set::empty()) == 0,
{
}

/// Adding up over positions is adding up over names.
proof fn lemma_bill_upto(
    costs: Map<Seq<char>, u64>,
    catalog: Seq<Seq<char>>,
    rates: Seq<u64>,
    positions: Set<usize>,
    names: Set<Seq<char>>,
    n: nat,
)
    requires
        n <= catalog.len(),
        rates.len() == catalog.len(),
        catalog.len() <= usize::MAX,
        catalog.no_duplicates(),
        forall|i: int| 0 <= i < catalog.len() ==> rates[i] == costs[#[trigger] catalog[i]],
        forall|i: int|
            0 <= i < catalog.len() ==> (names.contains(#[trigger] catalog[i])
                <==> positions.contains(i as usize)),
    ensures
        work_upto(rates, positions, n) == bill(
            costs,
            names.intersect(catalog.take(n as int).to_set()),
        ),
    decreases n,
{
    let some = names.intersect(catalog.take(n as int).to_set());
    if n == 0 {
        assert(some =~= Set::<Seq<char>>::empty());
    } else {
        let fewer = names.intersect(catalog.take(n - 1).to_set());
        let name = catalog[n - 1];
        let init = catalog.take(n - 1);
        lemma_bill_upto(costs, catalog, rates, positions, names, (n - 1) as nat);
        assert(catalog.take(n as int) =~= catalog.take(n - 1).push(name));
        catalog.take(n - 1).lemma_push_to_set_commute(name);
        if catalog.take(n - 1).to_set().contains(name) {
            let i = choose|i: int| 0 <= i < init.len() && init[i] == name;
            assert(catalog[i] == catalog[n - 1]);
        }
        if names.contains(name) {
            assert(some =~= fewer.insert(name));
            lemma_bill_insert(costs, fewer, name);
        } else {
            assert(some =~= fewer);
        }
    }
}

/// The names that a job lists, each once.
pub open spec fn names_of(job: Job) -> Set<Seq<char>> {
    Set::new(
        |name: Seq<char>|
            exists|k: int| 0 <= k < job.checks@.len() && (#[trigger] job.checks@[k])@ == name,
    )
}

/// The names that some of these jobs list, each once.
pub open spec fn names_among(w: Workload, jobs: Set<usize>) -> Set<Seq<char>> {
    Set::new(
        |name: Seq<char>|
            exists|i: usize| #[trigger]
                jobs.contains(i) && i < w.jobs@.len() && names_of(w.jobs@[i as int]).contains(name),
    )
}

/// Every check that the job lists has a cost.
pub open spec fn all_known(w: Workload, job: Job) -> bool {
    forall|k: int|
        0 <= k < job.checks@.len() ==> w.check_costs_s@.contains_key((#[trigger] job.checks@[k])@)
}

/// What positions in the catalog cost is what their names cost.
pub proof fn lemma_bill(w: Workload, positions: Set<usize>, names: Set<Seq<char>>)
    requires
        names.subset_of(w.check_costs_s@.dom()),
        forall|i: int|
            0 <= i < w.catalog().len() ==> (names.contains(#[trigger] w.catalog()[i])
                <==> positions.contains(i as usize)),
    ensures
        w.rates().duration(positions) == w.boot_s + bill(w.check_costs_s@, names),
{
    let costs = w.check_costs_s@;
    let catalog = w.catalog();
    let rates = w.rates().checks;
    lemma_catalog(w.check_costs_s);
    assert forall|i: int| 0 <= i < catalog.len() implies rates[i] == costs[#[trigger] catalog[i]] by {}
    lemma_bill_upto(costs, catalog, rates, positions, names, catalog.len());
    assert(catalog.take(catalog.len() as int) =~= catalog);
    assert(names.intersect(catalog.to_set()) =~= names);
}

} // verus!
