//! Launch immutable batches from feasible plans, driven only by arrivals and
//! deadlines. Running VMs need no state here: they cannot accept work, their
//! completion times are fixed, and they never block another VM from starting.
use std::collections::BTreeMap;

use vstd::prelude::*;

use crate::checks::Costs;
use crate::group::{filed as filed_jobs, items, lemma_covers, payable, Pending};
use crate::lane::{fired, Launch, Repo, Rules};
use crate::lane_laws::{lemma_fired, lemma_still_ready};
use crate::listing::{is_first, lemma_ascending_unique, lemma_listing_unique, listing};
use crate::model::{add_name, batch_text, spelled, Arrival, Batch, Schedule};
use crate::names::{
    in_order, lemma_name_irreflexive, lemma_name_orders, lemma_place, name_lt, place, texts,
};
use crate::partition::inhabited;
use crate::plan::ready;
use crate::policy::{Policy, Stats};
use crate::repository::{launch_of, launches_of, tidy_entries, Repository};
use crate::shape::{known, Rates};
use crate::state::{filed, news, touched, Ask, State};
use crate::state_laws::{
    belong, lemma_arrive, lemma_filed_ready, lemma_next, lemma_progress, lemma_replans, lemma_ring,
    lemma_rings_orders, lemma_touched, lemma_waiting_finite, punctual, sane, welcome,
};
use crate::team::Team;

verus! {

/// The repositories by name.
pub open spec fn repo_map(names: Seq<Seq<char>>, repos: Seq<Repository>) -> Map<Seq<char>, Repo> {
    Map::new(
        |name: Seq<char>| names.contains(name),
        |name: Seq<char>| repos[names.index_of(name)]@,
    )
}

/// In a list of names in order each name stands once.
proof fn lemma_index(names: Seq<Seq<char>>, i: int)
    requires
        in_order(names),
        0 <= i < names.len(),
    ensures
        names.contains(names[i]),
        names.index_of(names[i]) == i,
{
    let k = names.index_of(names[i]);
    assert(names.contains(names[i]));
    assert(0 <= k < names.len() && names[k] == names[i]);
    lemma_name_irreflexive(names[i]);
    if i < k {
        assert(name_lt(names[i], names[k]));
    } else if k < i {
        assert(name_lt(names[k], names[i]));
    }
}

/// Changing one repository changes one entry.
proof fn lemma_map_set(names: Seq<Seq<char>>, repos: Seq<Repository>, i: int, repo: Repository)
    requires
        in_order(names),
        names.len() == repos.len(),
        0 <= i < names.len(),
    ensures
        repo_map(names, repos.update(i, repo)) == repo_map(names, repos).insert(names[i], repo@),
{
    let after = repos.update(i, repo);
    lemma_index(names, i);
    assert forall|n: Seq<char>| names.contains(n) implies repo_map(names, after)[n] == repo_map(
        names,
        repos,
    ).insert(names[i], repo@)[n] by {
        let k = names.index_of(n);
        assert(0 <= k < names.len() && names[k] == n);
    }
    assert(repo_map(names, after) =~= repo_map(names, repos).insert(names[i], repo@));
}

/// A new repository makes a new entry.
proof fn lemma_map_insert(
    names: Seq<Seq<char>>,
    repos: Seq<Repository>,
    i: int,
    name: Seq<char>,
    repo: Repository,
)
    requires
        in_order(names),
        in_order(names.insert(i, name)),
        names.len() == repos.len(),
        0 <= i <= names.len(),
        !names.contains(name),
    ensures
        repo_map(names.insert(i, name), repos.insert(i, repo)) == repo_map(names, repos).insert(
            name,
            repo@,
        ),
{
    let more = names.insert(i, name);
    let after = repos.insert(i, repo);
    let goal = repo_map(names, repos).insert(name, repo@);
    assert(more[i] == name);
    lemma_index(more, i);
    assert forall|n: Seq<char>| more.contains(n) <==> #[trigger] goal.contains_key(n) by {
        if more.contains(n) {
            let k = choose|k: int| 0 <= k < more.len() && more[k] == n;
            if k < i {
                assert(names[k] == n);
            } else if k > i {
                assert(names[k - 1] == n);
            }
        }
        if names.contains(n) {
            let k = choose|k: int| 0 <= k < names.len() && names[k] == n;
            if k < i {
                assert(more[k] == n);
            } else {
                assert(more[k + 1] == n);
            }
        }
    }
    assert forall|n: Seq<char>| more.contains(n) implies repo_map(more, after)[n] == goal[n] by {
        if n != name {
            assert(goal.contains_key(n));
            let k = names.index_of(n);
            assert(0 <= k < names.len() && names[k] == n);
            if k < i {
                assert(more[k] == n);
                lemma_index(more, k);
                assert(after[k] == repos[k]);
            } else {
                assert(more[k + 1] == n);
                lemma_index(more, k + 1);
                assert(after[k + 1] == repos[k]);
            }
        }
    }
    assert(repo_map(more, after) =~= goal);
}

/// Removing a repository removes its entry.
proof fn lemma_map_remove(names: Seq<Seq<char>>, repos: Seq<Repository>, i: int)
    requires
        in_order(names),
        names.len() == repos.len(),
        0 <= i < names.len(),
    ensures
        in_order(names.remove(i)),
        repo_map(names.remove(i), repos.remove(i)) == repo_map(names, repos).remove(names[i]),
{
    let fewer = names.remove(i);
    let after = repos.remove(i);
    let goal = repo_map(names, repos).remove(names[i]);
    assert forall|a: int, b: int| 0 <= a < b < fewer.len() implies name_lt(
        #[trigger] fewer[a],
        #[trigger] fewer[b],
    ) by {
        let x = if a < i {
            a
        } else {
            a + 1
        };
        let y = if b < i {
            b
        } else {
            b + 1
        };
        assert(fewer[a] == names[x]);
        assert(fewer[b] == names[y]);
    }
    lemma_index(names, i);
    assert forall|n: Seq<char>| fewer.contains(n) <==> #[trigger] goal.contains_key(n) by {
        if fewer.contains(n) {
            let k = choose|k: int| 0 <= k < fewer.len() && fewer[k] == n;
            let m = if k < i {
                k
            } else {
                k + 1
            };
            assert(names[m] == n);
            lemma_index(names, m);
        }
        if goal.contains_key(n) {
            let k = choose|k: int| 0 <= k < names.len() && names[k] == n;
            if k < i {
                assert(fewer[k] == n);
            } else {
                assert(fewer[k - 1] == n);
            }
        }
    }
    assert forall|n: Seq<char>| fewer.contains(n) implies repo_map(fewer, after)[n] == goal[n] by {
        assert(goal.contains_key(n));
        let k = names.index_of(n);
        assert(0 <= k < names.len() && names[k] == n);
        if k < i {
            assert(fewer[k] == n);
            lemma_index(fewer, k);
            assert(after[k] == repos[k]);
        } else {
            assert(fewer[k - 1] == n);
            lemma_index(fewer, k - 1);
            assert(after[k - 1] == repos[k]);
        }
    }
    assert(repo_map(fewer, after) =~= goal);
}

/// Runs one simulation: it sees jobs only as they arrive.
#[derive(Debug)]
pub struct Scheduler {
    costs: Costs,
    policy: Policy,
    // Names in order, and the repositories that go with them. Each holds its one timer;
    // there are no stale timers.
    names: Vec<String>,
    repositories: Vec<Repository>,
    launches: Vec<(u64, Vec<usize>)>,
    stats: Stats,
}

impl View for Scheduler {
    type V = State;

    closed spec fn view(&self) -> State {
        State {
            repos: repo_map(texts(self.names@), self.repositories@),
            launches: launches_of(self.launches@),
            stats: self.stats,
        }
    }
}

/// Every repository is steady, and no job waits in two.
pub open spec fn orderly(rules: Rules, s: State) -> bool {
    exists|all: Map<usize, Ask>| #[trigger] sane(rules, all, s) && all.dom().finite()
}

/// A batch of arrivals, by token.
pub open spec fn batch_of(arrivals: Seq<Arrival>) -> Map<usize, Ask>
    decreases arrivals.len(),
{
    if arrivals.len() == 0 {
        Map::empty()
    } else {
        batch_of(arrivals.drop_last()).insert(arrivals.last().job.token, arrivals.last()@)
    }
}

/// The checks in the arrivals have a known cost, and no token occurs twice.
pub open spec fn legible(rates: Rates, arrivals: Seq<Arrival>) -> bool {
    &&& forall|i: int|
        0 <= i < arrivals.len() ==> (#[trigger] arrivals[i]).job.checks.wf() && known(
            arrivals[i].job@,
            rates.checks.len(),
        )
    &&& forall|i: int, j: int|
        0 <= i < arrivals.len() && 0 <= j < arrivals.len() && i != j ==> (
        #[trigger] arrivals[i]).job.token != (#[trigger] arrivals[j]).job.token
}

/// The arrivals are of jobs that do not wait yet, and that could run alone now. In their
/// repositories no batch is overdue.
pub open spec fn admits(rules: Rules, s: State, batch: Map<usize, Ask>, now: u64) -> bool {
    &&& forall|t: usize| #[trigger]
        batch.contains_key(t) ==> batch[t].at == now && rules.rates.fits(batch[t].shape, now)
            && !s.waiting().contains(t)
    &&& punctual(s, batch, now)
    &&& s.waiting().union(batch.dom()).len() <= usize::MAX
}

/// The jobs that wait, and those that arrive.
spec fn present(all: Map<usize, Ask>, s: State, batch: Map<usize, Ask>) -> Map<usize, Ask> {
    Map::new(
        |t: usize| s.waiting().contains(t) || batch.contains_key(t),
        |t: usize|
            if batch.contains_key(t) {
                batch[t]
            } else {
                Ask { at: 0, ..all[t] }
            },
    )
}

/// Arrivals that are admitted are welcome.
proof fn lemma_admitted(
    rules: Rules,
    all: Map<usize, Ask>,
    s: State,
    batch: Map<usize, Ask>,
    now: u64,
)
    requires
        sane(rules, all, s),
        all.dom().finite(),
        batch.dom().finite(),
        admits(rules, s, batch, now),
    ensures
        welcome(rules, present(all, s, batch), s, batch, now),
{
    let known = present(all, s, batch);
    lemma_waiting_finite(rules, all, s);
    assert(known.dom() =~= s.waiting().union(batch.dom()));
    assert forall|t: usize| #[trigger] known.contains_key(t) implies rules.rates.fits(
        known[t].shape,
        known[t].at,
    ) by {
        if !batch.contains_key(t) {
            let n = choose|n: Seq<char>| #[trigger]
                s.repos.contains_key(n) && s.repos[n].items.contains_key(t);
            let repo = s.repos[n];
            lemma_still_ready(rules.rates, repo.wake->0, repo.items, repo.plan, repo.items);
            assert(rules.rates.fits(repo.items[t], repo.wake->0));
        }
    }
    assert forall|n: Seq<char>| #[trigger] s.repos.contains_key(n) implies belong(
        known,
        n,
        s.repos[n],
    ) by {
        assert(belong(all, n, s.repos[n]));
        assert forall|t: usize| #[trigger] s.repos[n].items.contains_key(t) implies known.contains_key(
            t,
        ) && known[t].repo == n && s.repos[n].items[t] == known[t].shape by {
            assert(s.waiting().contains(t));
            assert(!batch.contains_key(t));
        }
    }
}

/// There are finitely many arrivals.
proof fn lemma_batch_finite(arrivals: Seq<Arrival>)
    ensures
        batch_of(arrivals).dom().finite(),
    decreases arrivals.len(),
{
    if arrivals.len() > 0 {
        lemma_batch_finite(arrivals.drop_last());
    }
}

impl Scheduler {
    pub closed spec fn rules(self) -> Rules {
        Rules { rates: self.costs@, policy: self.policy }
    }

    /// Nothing is out of place, and every repository is steady.
    pub closed spec fn wf(self) -> bool {
        self.tidy() && orderly(self.rules(), self@)
    }

    spec fn tidy(self) -> bool {
        &&& in_order(texts(self.names@))
        &&& self.names.len() == self.repositories.len()
        &&& forall|i: int|
            0 <= i < self.repositories.len() ==> (#[trigger] self.repositories@[i]).wf(self.costs)
        &&& tidy_entries(self.launches@)
    }

    /// A scheduler that has seen no job.
    pub fn new(costs: Costs, policy: Policy) -> (scheduler: Self)
        ensures
            scheduler.wf(),
            scheduler@ == State::start(),
            scheduler.rules() == (Rules { rates: costs@, policy }),
    {
        let scheduler = Scheduler {
            costs,
            policy,
            names: Vec::new(),
            repositories: Vec::new(),
            launches: Vec::new(),
            stats: Stats::default(),
        };
        proof {
            assert(scheduler@.repos =~= Map::empty());
            assert(scheduler@.launches =~= Seq::<Launch>::empty());
            assert(sane(scheduler.rules(), Map::empty(), scheduler@));
        }
        scheduler
    }

    proof fn lemma_at(&self, i: int)
        requires
            self.tidy(),
            0 <= i < self.names.len(),
        ensures
            self@.repos.contains_key(self.names@[i]@),
            self@.repos[self.names@[i]@] == self.repositories@[i]@,
            self@.repos.dom().finite(),
    {
        let names = texts(self.names@);
        assert(names[i] == self.names@[i]@);
        lemma_index(names, i);
        assert(self@.repos.dom() =~= names.to_set());
    }

    /// Where the repository stands whose timer rings first.
    fn first_timer(&self) -> (at: Option<usize>)
        requires
            self.tidy(),
        ensures
            match at {
                Some(at) => {
                    &&& at < self.names.len()
                    &&& !self@.idle()
                    &&& self.names@[at as int]@ == self@.next()
                    &&& self.repositories@[at as int].wake is Some
                    &&& self.repositories@[at as int].wake == self@.next_wake()
                },
                None => self@.idle(),
            },
            self@.repos.dom().finite(),
    {
        let ghost s = self@;
        let ghost names = texts(self.names@);
        let mut best: Option<(u64, usize)> = None;
        let mut i: usize = 0;
        while i < self.names.len()
            invariant
                self.tidy(),
                s == self@,
                names == texts(self.names@),
                i <= self.names.len(),
                match best {
                    Some((time, b)) => {
                        &&& b < i
                        &&& self.repositories@[b as int].wake == Some(time)
                        &&& forall|k: int|
                            0 <= k < i && (#[trigger] self.repositories@[k]).wake is Some ==> time
                                < self.repositories@[k].wake->0 || time
                                == self.repositories@[k].wake->0 && b <= k
                    },
                    None => forall|k: int|
                        0 <= k < i ==> (#[trigger] self.repositories@[k]).wake is None,
                },
            decreases self.names.len() - i,
        {
            if let Some(wake) = self.repositories[i].wake {
                let wins: bool = match best {
                    None => true,
                    Some((time, _)) => wake < time,
                };
                if wins {
                    best = Some((wake, i));
                }
            }
            i = i + 1;
        }
        proof {
            assert(s.repos.dom() =~= names.to_set());
            assert forall|n: Seq<char>| #[trigger] s.awake().contains(n) implies exists|k: int|
                0 <= k < names.len() && n == #[trigger] names[k] && s.repos[n]
                    == self.repositories@[k]@ by {
                let k = choose|k: int| 0 <= k < names.len() && names[k] == n;
                self.lemma_at(k);
                assert(n == names[k]);
            }
        }
        match best {
            Some((time, b)) => {
                proof {
                    let m = names[b as int];
                    self.lemma_at(b as int);
                    assert(s.awake().contains(m));
                    let lt = |a: Seq<char>, b: Seq<char>| s.rings(a, b);
                    assert forall|n: Seq<char>| s.awake().contains(n) && n != m implies #[trigger] lt(
                        m,
                        n,
                    ) by {
                        let k = choose|k: int|
                            0 <= k < names.len() && n == #[trigger] names[k] && s.repos[n]
                                == self.repositories@[k]@;
                        if b < k {
                            assert(name_lt(names[b as int], names[k]));
                        }
                    }
                    assert(is_first(s.awake(), lt, m));
                    lemma_next(s);
                    let f = s.next();
                    if f != m {
                        assert(lt(m, f));
                        assert(s.rings(f, m));
                        lemma_rings_orders(s, s.awake());
                        assert(lt(f, m));
                        assert(lt(f, f));
                    }
                }
                Some(b)
            },
            None => {
                proof {
                    assert forall|n: Seq<char>| !#[trigger] s.awake().contains(n) by {
                        if s.awake().contains(n) {
                            let k = choose|k: int|
                                0 <= k < names.len() && n == #[trigger] names[k] && s.repos[n]
                                    == self.repositories@[k]@;
                            assert(self.repositories@[k].wake is None);
                        }
                    }
                }
                None
            },
        }
    }

    /// When the first timer rings.
    pub fn next_wake(&self) -> (wake: Option<u64>)
        requires
            self.wf(),
        ensures
            wake == self@.next_wake(),
    {
        match self.first_timer() {
            Some(at) => self.repositories[at].wake,
            None => {
                proof {
                    lemma_next(self@);
                }
                None
            },
        }
    }
}

impl Scheduler {
    /// Puts a repository back in its place, planned anew, or drops it if no job waits.
    fn settle(&mut self, at: usize, repo: Repository, now: u64)
        requires
            in_order(texts(old(self).names@)),
            at < old(self).names.len(),
            old(self).names.len() == old(self).repositories.len() + 1,
            forall|i: int|
                0 <= i < old(self).repositories.len() ==> (
                #[trigger] old(self).repositories@[i]).wf(old(self).costs),
            tidy_entries(old(self).launches@),
            repo.wf(old(self).costs),
            ready(old(self).costs@, now, repo@.items, repo@.plan),
        ensures
            final(self).tidy(),
            final(self).rules() == old(self).rules(),
            final(self).costs == old(self).costs,
            final(self)@ == old(self).rules().replan(
                (State {
                    repos: repo_map(
                        texts(old(self).names@),
                        old(self).repositories@.insert(at as int, repo),
                    ),
                    launches: launches_of(old(self).launches@),
                    stats: old(self).stats,
                }),
                old(self).names@[at as int]@,
                now,
            ),
    {
        let ghost names = texts(self.names@);
        let ghost reps = self.repositories@;
        let ghost full = reps.insert(at as int, repo);
        let ghost rules = self.rules();
        proof {
            assert(names[at as int] == self.names@[at as int]@);
            lemma_index(names, at as int);
            assert(repo_map(names, full)[names[at as int]] == repo@);
            assert(repo.pending@.dom() =~= repo@.items.dom());
        }
        if repo.pending.is_empty() {
            proof {
                lemma_map_remove(names, full, at as int);
                assert(full.remove(at as int) =~= reps);
                assert(!inhabited(repo@.items.dom()));
            }
            let _ = self.names.remove(at);
            proof {
                assert(texts(self.names@) =~= names.remove(at as int));
            }
        } else {
            let mut repo = repo;
            let ghost was = repo@;
            proof {
                let t = choose|t: usize| repo.pending@.dom().contains(t);
                assert(repo@.items.dom().contains(t));
            }
            repo.replan(&self.costs, now, self.policy, &mut self.stats);
            let ghost made = repo;
            self.repositories.insert(at, repo);
            proof {
                lemma_map_set(names, full, at as int, made);
                assert(self.repositories@ =~= full.update(at as int, made));
                assert(rules.planned(now, was) == Some(made@));
                assert forall|i: int| 0 <= i < self.repositories@.len() implies (
                #[trigger] self.repositories@[i]).wf(self.costs) by {
                    if i < at {
                        assert(self.repositories@[i] == reps[i]);
                    } else if i > at {
                        assert(self.repositories@[i] == reps[i - 1]);
                    }
                }
            }
        }
    }

    /// Launches what is due in the repository whose timer rings first.
    fn ring(&mut self, at: usize, now: u64, Ghost(all): Ghost<Map<usize, Ask>>)
        requires
            old(self).tidy(),
            at < old(self).names.len(),
            sane(old(self).rules(), all, old(self)@),
            !old(self)@.idle(),
            old(self).names@[at as int]@ == old(self)@.next(),
            old(self)@.next_wake() == Some(now),
            old(self).repositories@[at as int].wake == Some(now),
        ensures
            final(self).tidy(),
            final(self).rules() == old(self).rules(),
            final(self)@ == old(self).rules().ring(old(self)@),
    {
        let ghost s = self@;
        let ghost rules = self.rules();
        let ghost names = texts(self.names@);
        let ghost reps = self.repositories@;
        let ghost name = self.names@[at as int]@;
        let ghost was = reps[at as int]@;
        proof {
            assert(names[at as int] == name);
            self.lemma_at(at as int);
            lemma_ring(rules, all, s);
            lemma_fired(rules, was);
        }
        let mut repo: Repository = self.repositories.remove(at);
        repo.wake = None;
        repo.launch(&self.costs, now, &mut self.launches);
        let ghost parked = repo;
        proof {
            assert(parked@ == (Repo {
                items: fired(rules.rates, now, was).0,
                plan: was.plan,
                wake: None,
            }));
            let full = reps.remove(at as int).insert(at as int, parked);
            assert(full =~= reps.update(at as int, parked));
            lemma_map_set(names, reps, at as int, parked);
            assert forall|i: int| 0 <= i < self.repositories@.len() implies (
            #[trigger] self.repositories@[i]).wf(self.costs) by {
                if i < at {
                    assert(self.repositories@[i] == reps[i]);
                } else {
                    assert(self.repositories@[i] == reps[i + 1]);
                }
            }
        }
        self.settle(at, repo, now);
    }

    /// Timers ring until the next one is beyond the limit.
    pub fn advance(&mut self, limit: u64, inclusive: bool)
        requires
            old(self).wf(),
        ensures
            final(self).wf(),
            final(self).rules() == old(self).rules(),
            final(self)@ == old(self).rules().advance(old(self)@, limit, inclusive),
    {
        let ghost rules = self.rules();
        let ghost all = choose|all: Map<usize, Ask>| #[trigger]
            sane(rules, all, self@) && all.dom().finite();
        let ghost start = self@;
        loop
            invariant
                self.tidy(),
                self.rules() == rules,
                sane(rules, all, self@),
                all.dom().finite(),
                rules.advance(start, limit, inclusive) == rules.advance(self@, limit, inclusive),
            ensures
                self.tidy(),
                self.rules() == rules,
                self@ == rules.advance(start, limit, inclusive),
                sane(rules, all, self@),
            decreases self@.waiting().len(),
        {
            let at: usize = match self.first_timer() {
                Some(at) => at,
                None => {
                    proof {
                        lemma_next(self@);
                    }
                    break;
                },
            };
            let now: u64 = match self.repositories[at].wake {
                Some(now) => now,
                None => {
                    break;
                },
            };
            if !(now < limit || inclusive && now == limit) {
                break;
            }
            proof {
                lemma_ring(rules, all, self@);
                lemma_progress(rules, all, self@);
            }
            self.ring(at, now, Ghost(all));
        }
    }
}

/// One more arrival joins its repository.
proof fn lemma_joined_insert(s: State, done: Map<usize, Ask>, t: usize, ask: Ask)
    requires
        !done.contains_key(t),
    ensures
        s.joined(done.insert(t, ask)).repos == s.joined(done).repos.insert(
            ask.repo,
            (Repo {
                items: s.joined(done).repo(ask.repo).items.insert(t, ask.shape),
                ..s.joined(done).repo(ask.repo)
            }),
        ),
        touched(done.insert(t, ask)) == touched(done).insert(ask.repo),
{
    let more = done.insert(t, ask);
    let before = s.joined(done);
    let after = s.joined(more);
    let name = ask.repo;
    assert forall|n: Seq<char>| #[trigger] touched(more).contains(n) <==> touched(done).insert(
        name,
    ).contains(n) by {
        if touched(more).contains(n) {
            let u = choose|u: usize| #[trigger] more.contains_key(u) && more[u].repo == n;
            if u != t {
                assert(done.contains_key(u) && done[u].repo == n);
            }
        }
        if touched(done).contains(n) {
            let u = choose|u: usize| #[trigger] done.contains_key(u) && done[u].repo == n;
            assert(more.contains_key(u) && more[u].repo == n);
        }
        if n == name {
            assert(more.contains_key(t) && more[t].repo == n);
        }
    }
    assert(touched(more) =~= touched(done).insert(name));
    assert forall|n: Seq<char>| n != name implies #[trigger] news(more, n) == news(done, n) by {
        assert(news(more, n) =~= news(done, n));
    }
    assert(news(more, name) =~= news(done, name).insert(t, ask.shape));
    assert(filed(s.repo(name), more, name).items =~= filed(s.repo(name), done, name).items.insert(
        t,
        ask.shape,
    ));
    if !before.repos.contains_key(name) {
        assert(news(done, name) =~= Map::empty()) by {
            assert forall|u: usize| !#[trigger] news(done, name).contains_key(u) by {
                if news(done, name).contains_key(u) {
                    assert(done.contains_key(u) && done[u].repo == name);
                    assert(touched(done).contains(name));
                }
            }
        }
        assert(filed(s.repo(name), done, name).items =~= Map::empty());
    }
    assert(before.repo(name) == filed(s.repo(name), done, name));
    let goal = before.repos.insert(
        name,
        Repo { items: before.repo(name).items.insert(t, ask.shape), ..before.repo(name) },
    );
    assert forall|n: Seq<char>| after.repos.contains_key(n) implies #[trigger] after.repos[n]
        == goal[n] by {
        if n != name {
            assert(news(more, n) == news(done, n));
        }
    }
    assert(after.repos =~= goal);
}

impl Scheduler {
    /// Adds a job to those that wait in its repository.
    fn file(&mut self, arrival: Arrival)
        requires
            old(self).tidy(),
            old(self).costs.covers(arrival.job.checks),
        ensures
            final(self).tidy(),
            final(self).rules() == old(self).rules(),
            final(self).costs == old(self).costs,
            final(self)@ == (State {
                repos: old(self)@.repos.insert(
                    arrival.repo@,
                    (Repo {
                        items: old(self)@.repo(arrival.repo@).items.insert(
                            arrival.job.token,
                            arrival.job@,
                        ),
                        ..old(self)@.repo(arrival.repo@)
                    }),
                ),
                ..old(self)@
            }),
    {
        let ghost names = texts(self.names@);
        let ghost reps = self.repositories@;
        let ghost name = arrival.repo@;
        let ghost token = arrival.job.token;
        let ghost shape = arrival.job@;
        let at: usize = place(&self.names, arrival.repo.as_str());
        proof {
            lemma_place(names, name, at as int);
        }
        if at < self.names.len() && self.names[at] == arrival.repo {
            assert(names[at as int] == name);
            proof {
                self.lemma_at(at as int);
            }
            let mut repo: Repository = self.repositories.remove(at);
            let ghost was = repo@;
            let ghost pending = repo.pending@;
            repo.pending.insert(arrival.job.token, arrival.job);
            let ghost made = repo;
            proof {
                assert(made@.items =~= was.items.insert(token, shape));
                lemma_filed_insert(pending, made.pending@, token, self.costs);
            }
            self.repositories.insert(at, repo);
            proof {
                assert(self.repositories@ =~= reps.update(at as int, made));
                lemma_map_set(names, reps, at as int, made);
            }
        } else {
            assert(at < names.len() ==> names[at as int] == self.names@[at as int]@);
            let mut pending: BTreeMap<usize, Pending> = BTreeMap::new();
            let ghost empty = pending@;
            pending.insert(arrival.job.token, arrival.job);
            let repo = Repository { pending, plan: Vec::new(), wake: None };
            let ghost made = repo;
            proof {
                assert(made@.items =~= Map::empty().insert(token, shape));
                assert(made@.plan =~= Seq::<Team>::empty());
                lemma_filed_insert(empty, made.pending@, token, self.costs);
                lemma_map_insert(names, reps, at as int, name, made);
            }
            self.names.insert(at, arrival.repo);
            self.repositories.insert(at, repo);
            assert(texts(self.names@) =~= names.insert(at as int, name));
        }
    }

    /// Plans one repository anew.
    fn replan(&mut self, name: &String, now: u64)
        requires
            old(self).tidy(),
            old(self)@.repos.contains_key(name@),
            ready(
                old(self).rules().rates,
                now,
                old(self)@.repos[name@].items,
                old(self)@.repos[name@].plan,
            ),
        ensures
            final(self).tidy(),
            final(self).rules() == old(self).rules(),
            final(self)@ == old(self).rules().replan(old(self)@, name@, now),
    {
        let ghost names = texts(self.names@);
        let ghost reps = self.repositories@;
        let at: usize = place(&self.names, name.as_str());
        proof {
            lemma_place(names, name@, at as int);
            assert(names[at as int] == self.names@[at as int]@);
            self.lemma_at(at as int);
        }
        let repo: Repository = self.repositories.remove(at);
        proof {
            assert(reps.remove(at as int).insert(at as int, repo) =~= reps);
            assert forall|i: int| 0 <= i < self.repositories@.len() implies (
            #[trigger] self.repositories@[i]).wf(self.costs) by {
                if i < at {
                    assert(self.repositories@[i] == reps[i]);
                } else {
                    assert(self.repositories@[i] == reps[i + 1]);
                }
            }
        }
        self.settle(at, repo, now);
    }

    /// Reveals the jobs that arrive now, and plans their repositories anew.
    pub fn arrive(&mut self, now: u64, arrivals: Vec<Arrival>)
        requires
            old(self).wf(),
            legible(old(self).rules().rates, arrivals@),
            admits(old(self).rules(), old(self)@, batch_of(arrivals@), now),
        ensures
            final(self).wf(),
            final(self).rules() == old(self).rules(),
            final(self)@ == old(self).rules().arrive(old(self)@, batch_of(arrivals@), now),
    {
        let ghost rules = self.rules();
        let ghost s = self@;
        let ghost batch = batch_of(arrivals@);
        let ghost known = choose|known: Map<usize, Ask>| #[trigger]
            sane(rules, known, s) && known.dom().finite();
        let ghost all = present(known, s, batch);
        proof {
            lemma_batch_finite(arrivals@);
            lemma_admitted(rules, known, s, batch, now);
        }
        let mut arrivals: Vec<Arrival> = arrivals;
        let mut touched_names: Vec<String> = Vec::new();
        let ghost mut done: Map<usize, Ask> = Map::empty();
        proof {
            lemma_joined_none(s);
            assert(batch_of(arrivals@).union_prefer_right(done) =~= batch);
            assert(texts(touched_names@).to_set() =~= touched(done));
        }
        loop
            invariant
                self.tidy(),
                self.rules() == rules,
                legible(rules.rates, arrivals@),
                self@ == s.joined(done),
                batch == batch_of(arrivals@).union_prefer_right(done),
                batch_of(arrivals@).dom().disjoint(done.dom()),
                in_order(texts(touched_names@)),
                texts(touched_names@).to_set() == touched(done),
            ensures
                arrivals@.len() == 0,
            decreases arrivals.len(),
        {
            let ghost before = arrivals@;
            let arrival: Arrival = match arrivals.pop() {
                Some(arrival) => arrival,
                None => {
                    break;
                },
            };
            let ghost t = arrival.job.token;
            let ghost ask = arrival@;
            proof {
                assert(before.drop_last() =~= arrivals@);
                assert(before.last() == arrival);
                assert(batch_of(before).contains_key(t));
                assert(!done.contains_key(t));
                lemma_joined_insert(s, done, t, ask);
                lemma_fresh_token(before);
                assert(before[before.len() - 1] == arrival);
                lemma_covers(self.costs, arrival.job.checks);
                assert forall|c: usize| #[trigger] arrival.job.checks@.contains(c) implies c
                    < self.costs.checks.len() by {
                    assert(arrival.job@.checks.contains(c));
                }
            }
            let _ = add_name(&mut touched_names, &arrival.repo);
            self.file(arrival);
            proof {
                assert(self@.repos =~= s.joined(done.insert(t, ask)).repos);
                assert(batch_of(arrivals@).union_prefer_right(done.insert(t, ask)) =~= batch);
                done = done.insert(t, ask);
            }
        }
        let ghost names = listing(touched(batch), |a: Seq<char>, b: Seq<char>| name_lt(a, b));
        let ghost mid = s.joined(batch);
        proof {
            assert(batch =~= done);
            lemma_touched(batch);
            lemma_name_orders(touched(batch));
            lemma_listing_unique(
                texts(touched_names@),
                touched(batch),
                |a: Seq<char>, b: Seq<char>| name_lt(a, b),
            );
            assert forall|i: int| 0 <= i < names.len() implies mid.repos.contains_key(
                #[trigger] names[i],
            ) && inhabited(mid.repos[names[i]].items.dom()) by {
                assert(names.to_set().contains(names[i]));
                lemma_filed_ready(rules, all, s, batch, now, names[i]);
            }
        }
        // Planning before this loop would expose only part of a timestamp's
        // arrivals and could commit a batch before all eligible jobs are seen.
        let mut k: usize = 0;
        while k < touched_names.len()
            invariant
                self.tidy(),
                self.rules() == rules,
                welcome(rules, all, s, batch, now),
                mid == s.joined(batch),
                names == texts(touched_names@),
                names.no_duplicates(),
                names.to_set() == touched(batch),
                forall|i: int|
                    0 <= i < names.len() ==> mid.repos.contains_key(#[trigger] names[i])
                        && inhabited(mid.repos[names[i]].items.dom()),
                k <= touched_names.len(),
                self@ == rules.replans(mid, names, k as nat, now),
            decreases touched_names.len() - k,
        {
            proof {
                let name = names[k as int];
                assert(name == touched_names@[k as int]@);
                assert(names.to_set().contains(names[k as int]));
                lemma_replans(rules, mid, names, k as nat, now);
                assert forall|i: int| 0 <= i < k implies names[i] != name by {}
                assert(self@.repos[name] == mid.repos[name]);
                lemma_filed_ready(rules, all, s, batch, now, name);
            }
            self.replan(&touched_names[k], now);
            k = k + 1;
        }
        proof {
            lemma_arrive(rules, all, s, batch, now);
        }
    }
}

/// With no arrivals nothing changes.
proof fn lemma_joined_none(s: State)
    ensures
        s.joined(Map::empty()) == s,
        touched(Map::empty()) == Set::<Seq<char>>::empty(),
{
    let none = Map::<usize, Ask>::empty();
    assert(touched(none) =~= Set::<Seq<char>>::empty());
    assert forall|n: Seq<char>| s.repos.contains_key(n) implies #[trigger] s.joined(none).repos[n]
        == s.repos[n] by {
        assert(news(none, n) =~= Map::empty());
        assert(filed(s.repo(n), none, n).items =~= s.repos[n].items);
    }
    assert(s.joined(none).repos =~= s.repos);
}

/// The last token does not occur before.
proof fn lemma_fresh_token(arrivals: Seq<Arrival>)
    requires
        arrivals.len() > 0,
        forall|i: int, j: int|
            0 <= i < arrivals.len() && 0 <= j < arrivals.len() && i != j ==> (
            #[trigger] arrivals[i]).job.token != (#[trigger] arrivals[j]).job.token,
    ensures
        !batch_of(arrivals.drop_last()).contains_key(arrivals.last().job.token),
{
    let init = arrivals.drop_last();
    let t = arrivals.last().job.token;
    if batch_of(init).contains_key(t) {
        lemma_batch_of(init, t);
        let i = choose|i: int| 0 <= i < init.len() && (#[trigger] init[i]).job.token == t;
        assert(arrivals[i].job.token == arrivals[arrivals.len() - 1].job.token);
    }
}

/// A token in the batch belongs to an arrival.
pub proof fn lemma_batch_of(arrivals: Seq<Arrival>, t: usize)
    ensures
        batch_of(arrivals).contains_key(t) <==> exists|i: int|
            0 <= i < arrivals.len() && (#[trigger] arrivals[i]).job.token == t,
    decreases arrivals.len(),
{
    if arrivals.len() > 0 {
        let init = arrivals.drop_last();
        lemma_batch_of(init, t);
        if batch_of(arrivals).contains_key(t) {
            if t == arrivals.last().job.token {
                assert(arrivals[arrivals.len() - 1].job.token == t);
            } else {
                let i = choose|i: int| 0 <= i < init.len() && (#[trigger] init[i]).job.token == t;
                assert(arrivals[i].job.token == t);
            }
        }
        if exists|i: int| 0 <= i < arrivals.len() && (#[trigger] arrivals[i]).job.token == t {
            let i = choose|i: int|
                0 <= i < arrivals.len() && (#[trigger] arrivals[i]).job.token == t;
            if i < init.len() {
                assert(init[i].job.token == t);
            }
        }
    }
}

/// One more waiting job.
proof fn lemma_filed_insert(
    before: Map<usize, Pending>,
    after: Map<usize, Pending>,
    t: usize,
    costs: Costs,
)
    requires
        filed_jobs(before),
        payable(costs, before),
        after.contains_key(t),
        after == before.insert(t, after[t]),
        after[t].token == t,
        costs.covers(after[t].checks),
    ensures
        filed_jobs(after),
        payable(costs, after),
{
    assert(after.dom() =~= before.dom().insert(t));
    assert forall|u: usize| #[trigger] after.contains_key(u) implies after[u].token == u
        && after[u].checks.wf() && costs.covers(after[u].checks) by {
        if u != t {
            assert(before.contains_key(u));
        }
    }
}

impl Scheduler {
    /// The batches launched, with the labels of their jobs, and the diagnostics.
    pub fn output(self, labels: &Vec<String>) -> (out: (Schedule, Stats))
        requires
            self.wf(),
            self@.repos == Map::<Seq<char>, Repo>::empty(),
            forall|i: int, t: usize|
                0 <= i < self@.launches.len() && #[trigger] self@.launches[i].jobs.contains(t)
                    ==> t < labels.len(),
        ensures
            out.0@ == spelled(texts(labels@), self@.launches),
            out.1 == self@.stats,
    {
        let ghost s = self@;
        let ghost names = texts(labels@);
        let mut batches: Vec<Batch> = Vec::new();
        let mut i: usize = 0;
        while i < self.launches.len()
            invariant
                self.wf(),
                s == self@,
                names == texts(labels@),
                forall|i: int, t: usize|
                    0 <= i < s.launches.len() && #[trigger] s.launches[i].jobs.contains(t) ==> t
                        < labels.len(),
                i <= self.launches.len(),
                batches.len() == i,
                forall|k: int|
                    0 <= k < i ==> batch_text(#[trigger] batches@[k]) == spelled(
                        names,
                        s.launches,
                    )[k],
            decreases self.launches.len() - i,
        {
            let tokens: &Vec<usize> = &self.launches[i].1;
            let mut job_ids: Vec<String> = Vec::new();
            let mut k: usize = 0;
            proof {
                assert(s.launches[i as int] == launch_of(self.launches@[i as int]));
            }
            while k < tokens.len()
                invariant
                    names == texts(labels@),
                    i < s.launches.len(),
                    s.launches[i as int].jobs == tokens@.to_set(),
                    forall|i: int, t: usize|
                        0 <= i < s.launches.len() && #[trigger] s.launches[i].jobs.contains(t)
                            ==> t < labels.len(),
                    k <= tokens.len(),
                    job_ids.len() == k,
                    forall|m: int|
                        0 <= m < k ==> (#[trigger] job_ids@[m])@ == names[tokens@[m] as int],
                decreases tokens.len() - k,
            {
                let token: usize = tokens[k];
                assert(s.launches[i as int].jobs.contains(token)) by {
                    assert(tokens@[k as int] == token);
                }
                assert(names[token as int] == labels@[token as int]@);
                job_ids.push(labels[token].clone());
                k = k + 1;
            }
            proof {
                lemma_ascending_unique(tokens@, tokens@.to_set());
                assert(texts(job_ids@) =~= tokens@.map_values(|t: usize| names[t as int]));
            }
            batches.push(Batch { launched_at_s: self.launches[i].0, job_ids });
            i = i + 1;
        }
        let schedule = Schedule { batches };
        assert(schedule@ =~= spelled(names, s.launches));
        (schedule, self.stats)
    }
}

} // verus!
