//! What happens in one repository: batches are launched when they must be, and the rest
//! is planned anew.
use vstd::prelude::*;

use crate::bits::{bits_lt, lemma_bits_irreflexive, lemma_bits_total, lemma_bits_transitive};
use crate::listing::{listing, orders};
use crate::partition::{first_start, inhabited};
use crate::plan::{effort, plan};
use crate::policy::{Effort, Policy};
use crate::shape::{gather, Rates, Shape};
use crate::team::{shapes, Team};

verus! {

/// A repository with waiting jobs, their plan, and when the first batch must start.
pub struct Repo {
    pub items: Map<usize, Shape>,
    pub plan: Seq<Team>,
    pub wake: Option<u64>,
}

/// A launched batch.
pub struct Launch {
    pub at: u64,
    pub jobs: Set<usize>,
}

/// What a simulation goes by.
pub struct Rules {
    pub rates: Rates,
    pub policy: Policy,
}

/// The batches that must start now.
pub open spec fn due(rates: Rates, now: u64, plan: Seq<Team>) -> Set<usize> {
    Set::new(|i: usize| i < plan.len() && rates.latest(plan[i as int].shape) == now)
}

/// The order of simultaneous launches: numeral order of the checks, then position.
pub open spec fn ahead(plan: Seq<Team>, a: usize, b: usize) -> bool {
    let x = plan[a as int].shape.checks;
    let y = plan[b as int].shape.checks;
    bits_lt(x, y) || x == y && a < b
}

pub proof fn lemma_ahead_orders(plan: Seq<Team>, whole: Set<usize>)
    ensures
        orders(|a: usize, b: usize| ahead(plan, a, b), whole),
{
    let lt = |a: usize, b: usize| ahead(plan, a, b);
    assert forall|x: usize| whole.contains(x) implies !#[trigger] lt(x, x) by {
        lemma_bits_irreflexive(plan[x as int].shape.checks);
    }
    assert forall|x: usize, y: usize|
        whole.contains(x) && whole.contains(y) && x != y implies #[trigger] lt(x, y) || lt(
        y,
        x,
    ) by {
        if plan[x as int].shape.checks != plan[y as int].shape.checks {
            lemma_bits_total(plan[x as int].shape.checks, plan[y as int].shape.checks);
        }
    }
    assert forall|x: usize, y: usize, z: usize|
        whole.contains(x) && whole.contains(y) && whole.contains(z) && #[trigger] lt(x, y)
            && #[trigger] lt(y, z) implies lt(x, z) by {
        let a = plan[x as int].shape.checks;
        let b = plan[y as int].shape.checks;
        let c = plan[z as int].shape.checks;
        if bits_lt(a, b) && bits_lt(b, c) {
            lemma_bits_transitive(a, b, c);
        }
    }
}

/// The batches that must start now, in launching order.
pub open spec fn due_order(rates: Rates, now: u64, plan: Seq<Team>) -> Seq<usize> {
    listing(due(rates, now, plan), |a: usize, b: usize| ahead(plan, a, b))
}

/// The waiting jobs that a batch launched now satisfies: they add no checks to it, and
/// it finishes before their deadlines.
pub open spec fn satisfied(
    rates: Rates,
    now: u64,
    items: Map<usize, Shape>,
    checks: Set<usize>,
) -> Set<usize> {
    items.dom().filter(
        |t: usize|
            items[t].checks.subset_of(checks) && now + rates.duration(checks)
                <= items[t].deadline,
    )
}

/// The batch launched for these members, if they still have to start now. An earlier
/// simultaneous launch may have satisfied some of them for free.
pub open spec fn shot(
    rates: Rates,
    now: u64,
    items: Map<usize, Shape>,
    members: Set<usize>,
) -> Option<Set<usize>> {
    let live = members.intersect(items.dom());
    if !inhabited(live) || rates.latest(gather(items, live)) > now {
        None
    } else {
        Some(satisfied(rates, now, items, gather(items, live).checks))
    }
}

/// The jobs that still wait, and the batches launched, after the first `k` due batches
/// in the order.
pub open spec fn volley(
    rates: Rates,
    now: u64,
    items: Map<usize, Shape>,
    plan: Seq<Team>,
    order: Seq<usize>,
    k: nat,
) -> (Map<usize, Shape>, Seq<Launch>)
    decreases k,
{
    if k == 0 {
        (items, Seq::empty())
    } else {
        let (left, launches) = volley(rates, now, items, plan, order, (k - 1) as nat);
        match shot(rates, now, left, plan[order[k - 1] as int].members) {
            Some(jobs) => (left.remove_keys(jobs), launches.push(Launch { at: now, jobs })),
            None => (left, launches),
        }
    }
}

/// What launching everything that is due leaves and launches.
pub open spec fn fired(rates: Rates, now: u64, repo: Repo) -> (Map<usize, Shape>, Seq<Launch>) {
    let order = due_order(rates, now, repo.plan);
    volley(rates, now, repo.items, repo.plan, order, order.len())
}

impl Rules {
    /// The repository planned anew, if a job waits in it.
    pub open spec fn planned(self, now: u64, repo: Repo) -> Option<Repo> {
        if inhabited(repo.items.dom()) {
            let made = plan(self.rates, now, self.policy, repo.items, repo.plan);
            Some(
                Repo {
                    items: repo.items,
                    plan: made,
                    wake: Some(first_start(self.rates, shapes(made)) as u64),
                },
            )
        } else {
            None
        }
    }

    pub open spec fn effort(self, now: u64, repo: Repo) -> Effort {
        effort(self.rates, now, self.policy, repo.items, repo.plan)
    }

    /// The repository after its due batches are launched.
    pub open spec fn after_fire(self, now: u64, repo: Repo) -> Option<Repo> {
        self.planned(now, Repo { items: fired(self.rates, now, repo).0, plan: repo.plan, wake: None })
    }
}

} // verus!
