//! Workloads, schedules, and what makes a workload unacceptable.
use vstd::prelude::*;
use vstd::string::StringExecFns;

use crate::arrange::arrange;
use crate::bill::all_known;
use crate::catalog::{listed, CheckCosts};
use crate::checks::{Checks, Costs};
use crate::entry::{
    first_unknown, lemma_accepted, lemma_lined_up, lemma_looked_up, lined_up, proper_job,
};
use crate::group::{lemma_covers, lemma_covers_union, Pending};
use crate::lane::Launch;
use crate::listing::{ascending, listing, orders, upto};
use crate::names::{in_order, lemma_place, place, texts};
use crate::shape::{Rates, Shape};
use crate::state::Ask;

verus! {

/// The jobs to schedule, and what their checks cost.
#[derive(Debug, Clone)]
pub struct Workload {
    pub boot_s: u64,
    pub sla_s: u64,
    pub check_costs_s: CheckCosts,
    pub jobs: Vec<Job>,
}

/// A job asks for checks in one repository.
#[derive(Debug, Clone)]
pub struct Job {
    pub job_id: String,
    pub repo: String,
    pub arrived_at_s: u64,
    pub checks: Vec<String>,
}

/// The batches in launching order.
#[derive(Debug, Clone, PartialEq, Eq)]
pub struct Schedule {
    pub batches: Vec<Batch>,
}

/// Jobs that run together on one machine.
#[derive(Debug, Clone, PartialEq, Eq)]
pub struct Batch {
    pub launched_at_s: u64,
    pub job_ids: Vec<String>,
}

/// When a batch is launched, and the IDs of its jobs.
pub open spec fn batch_text(batch: Batch) -> (u64, Seq<Seq<char>>) {
    (batch.launched_at_s, texts(batch.job_ids@))
}

impl View for Schedule {
    type V = Seq<(u64, Seq<Seq<char>>)>;

    open spec fn view(&self) -> Seq<(u64, Seq<Seq<char>>)> {
        self.batches@.map_values(|batch: Batch| batch_text(batch))
    }
}

/// The schedule that these launches make: each lists its jobs in input order.
pub open spec fn spelled(labels: Seq<Seq<char>>, launches: Seq<Launch>) -> Seq<
    (u64, Seq<Seq<char>>),
> {
    launches.map_values(
        |launch: Launch|
            (launch.at, ascending(launch.jobs).map_values(|t: usize| labels[t as int])),
    )
}

/// What is wrong with a workload.
#[derive(Debug)]
pub enum Fault {
    /// Two jobs have the same ID.
    DuplicateJob { job: String },
    /// A job asks for a check that is not in the catalog.
    UnknownCheck { job: String, check: String },
    /// A job cannot finish on its own, even when launched on arrival.
    TooLong { job: String },
    /// The deadline of a job is beyond the end of time.
    DeadlineOverflow { job: String },
}

/// What is wrong with a workload, in words.
pub enum Flaw {
    DuplicateJob { job: Seq<char> },
    UnknownCheck { job: Seq<char>, check: Seq<char> },
    TooLong { job: Seq<char> },
    DeadlineOverflow { job: Seq<char> },
}

impl View for Fault {
    type V = Flaw;

    open spec fn view(&self) -> Flaw {
        match *self {
            Fault::DuplicateJob { job } => Flaw::DuplicateJob { job: job@ },
            Fault::UnknownCheck { job, check } => Flaw::UnknownCheck { job: job@, check: check@ },
            Fault::TooLong { job } => Flaw::TooLong { job: job@ },
            Fault::DeadlineOverflow { job } => Flaw::DeadlineOverflow { job: job@ },
        }
    }
}

/// Why a workload is rejected.
#[derive(Debug)]
pub struct InputError(pub Fault);

/// The first name that is not in the catalog.
pub open spec fn stranger(names: Seq<Seq<char>>, catalog: Seq<Seq<char>>) -> Option<Seq<char>>
    decreases names.len(),
{
    if names.len() == 0 {
        None
    } else if stranger(names.drop_last(), catalog) is Some {
        stranger(names.drop_last(), catalog)
    } else if catalog.contains(names.last()) {
        None
    } else {
        Some(names.last())
    }
}

/// The positions in the catalog of the given names.
pub open spec fn positions(names: Seq<Seq<char>>, catalog: Seq<Seq<char>>) -> Set<usize> {
    Set::new(|i: usize| i < catalog.len() && names.contains(catalog[i as int]))
}

impl Workload {
    /// The check names in order. A check is known by its position here.
    pub open spec fn catalog(self) -> Seq<Seq<char>> {
        listed(self.check_costs_s@)
    }

    /// What machines and checks cost.
    pub open spec fn rates(self) -> Rates {
        Rates {
            boot: self.boot_s,
            checks: self.catalog().map_values(|name: Seq<char>| self.check_costs_s@[name]),
        }
    }

    /// The job IDs.
    pub open spec fn labels(self) -> Seq<Seq<char>> {
        self.jobs@.map_values(|job: Job| job.job_id@)
    }

    /// The checks that a job asks for, each once.
    pub open spec fn wanted(self, job: Job) -> Set<usize> {
        positions(texts(job.checks@), self.catalog())
    }

    /// What a job asks for, where and when.
    pub open spec fn ask(self, job: Job) -> Ask {
        Ask {
            at: job.arrived_at_s,
            repo: job.repo@,
            shape: Shape {
                checks: self.wanted(job),
                deadline: (job.arrived_at_s + self.sla_s) as u64,
            },
        }
    }

    /// All jobs, by position in the input.
    pub open spec fn asks(self) -> Map<usize, Ask> {
        Map::new(|i: usize| i < self.jobs.len(), |i: usize| self.ask(self.jobs@[i as int]))
    }

    /// What is wrong with the job at `i`.
    pub open spec fn flaw_at(self, i: int) -> Option<Flaw> {
        let job = self.jobs@[i];
        let id = job.job_id@;
        if self.labels().take(i).contains(id) {
            Some(Flaw::DuplicateJob { job: id })
        } else if stranger(texts(job.checks@), self.catalog()) is Some {
            Some(
                Flaw::UnknownCheck {
                    job: id,
                    check: stranger(texts(job.checks@), self.catalog())->0,
                },
            )
        } else if self.rates().duration(self.wanted(job)) > self.sla_s {
            Some(Flaw::TooLong { job: id })
        } else if job.arrived_at_s + self.sla_s > u64::MAX {
            Some(Flaw::DeadlineOverflow { job: id })
        } else {
            None
        }
    }

    /// What is wrong with the first of the first `n` jobs that has something wrong.
    pub open spec fn flaw_upto(self, n: nat) -> Option<Flaw>
        decreases n,
    {
        if n == 0 {
            None
        } else if self.flaw_upto((n - 1) as nat) is Some {
            self.flaw_upto((n - 1) as nat)
        } else {
            self.flaw_at(n - 1)
        }
    }

    /// What is wrong with the workload.
    pub open spec fn flaw(self) -> Option<Flaw> {
        self.flaw_upto(self.jobs@.len())
    }

    /// Jobs in order of arrival, then of position.
    pub open spec fn arrives_before(self, a: usize, b: usize) -> bool {
        let x = self.jobs@[a as int].arrived_at_s;
        let y = self.jobs@[b as int].arrived_at_s;
        x < y || x == y && a < b
    }

    /// The positions of the jobs in order of arrival.
    pub open spec fn by_arrival(self) -> Seq<usize> {
        listing(upto(self.jobs@.len()), |a: usize, b: usize| self.arrives_before(a, b))
    }
}

/// A job as it is revealed to the scheduler.
#[derive(Debug)]
pub struct Arrival {
    pub at: u64,
    pub repo: String,
    pub job: Pending,
}

impl View for Arrival {
    type V = Ask;

    open spec fn view(&self) -> Ask {
        Ask { at: self.at, repo: self.repo@, shape: self.job@ }
    }
}

/// A workload that has nothing wrong with it.
#[derive(Debug)]
pub struct Prepared {
    pub costs: Costs,
    pub labels: Vec<String>,
    pub arrivals: Vec<Arrival>,
}

/// The workload is ready to be simulated: costs, labels, and the jobs in order of
/// arrival.
pub open spec fn prepares(prepared: Prepared, w: Workload) -> bool {
    &&& prepared.costs@ == w.rates()
    &&& texts(prepared.labels@) == w.labels()
    &&& prepared.arrivals@.map_values(|arrival: Arrival| arrival.job.token) == w.by_arrival()
    &&& forall|i: int|
        0 <= i < prepared.arrivals.len() ==> (#[trigger] prepared.arrivals@[i])@ == w.asks()[
            prepared.arrivals@[i].job.token
        ] && prepared.costs.covers(prepared.arrivals@[i].job.checks)
}

impl Workload {
    /// The checks that a job asks for, each once, or the first that is unknown.
    fn look_up(&self, job: &Job, costs: &Costs) -> (checks: Result<Checks, String>)
        requires
            costs@ == self.rates(),
        ensures
            match checks {
                Ok(checks) => stranger(texts(job.checks@), self.catalog()) is None && checks@
                    == self.wanted(*job) && costs.covers(checks) && all_known(*self, *job),
                Err(check) => stranger(texts(job.checks@), self.catalog()) == Some(check@)
                    && first_unknown(*self, *job, check@),
            },
    {
        proof {
            lemma_looked_up(*self, *job);
        }
        let ghost names = texts(job.checks@);
        let ghost catalog = self.catalog();
        let mut checks: Checks = Checks::default();
        let mut k: usize = 0;
        proof {
            lemma_covers(*costs, checks);
            assert(names.take(0) =~= Seq::<Seq<char>>::empty());
            assert(checks@ =~= positions(names.take(0), catalog));
        }
        while k < job.checks.len()
            invariant
                costs@ == self.rates(),
                names == texts(job.checks@),
                catalog == self.catalog(),
                k <= job.checks.len(),
                stranger(names, catalog) is None <==> all_known(*self, *job),
                stranger(names, catalog) matches Some(check) ==> first_unknown(*self, *job, check),
                stranger(names.take(k as int), catalog) is None,
                checks@ == positions(names.take(k as int), catalog),
                costs.covers(checks),
            decreases job.checks.len() - k,
        {
            let check: &String = &job.checks[k];
            proof {
                assert(names[k as int] == check@);
                assert(names.take(k + 1).drop_last() =~= names.take(k as int));
                assert(names.take(k + 1).last() == check@);
                assert(names.take(k + 1) =~= names.take(k as int).push(check@));
            }
            match self.check_costs_s.position(check.as_str()) {
                None => {
                    proof {
                        lemma_stranger_stays(names, catalog, k + 1);
                    }
                    return Err(check.clone());
                },
                Some(at) => {
                    let one: Checks = Checks(vec![at]);
                    let more: Checks = checks.union(&one);
                    proof {
                        assert(one.0@ =~= seq![at]);
                        assert(one.0@[0] == at);
                        assert(one@ =~= set![at]);
                        assert(catalog.len() == costs.checks.len());
                        lemma_covers(*costs, one);
                        lemma_covers_union(*costs, checks, one, more);
                        assert(catalog[at as int] == check@);
                        lemma_positions_push(names.take(k as int), check@, catalog, at);
                    }
                    checks = more;
                },
            }
            k = k + 1;
        }
        assert(names.take(k as int) =~= names);
        Ok(checks)
    }
}

/// The first unknown name stays the first.
proof fn lemma_stranger_stays(names: Seq<Seq<char>>, catalog: Seq<Seq<char>>, k: int)
    requires
        0 <= k <= names.len(),
        stranger(names.take(k), catalog) is Some,
    ensures
        stranger(names, catalog) == stranger(names.take(k), catalog),
    decreases names.len(),
{
    if k == names.len() {
        assert(names.take(k) =~= names);
    } else {
        assert(names.drop_last().take(k) =~= names.take(k));
        lemma_stranger_stays(names.drop_last(), catalog, k);
    }
}

/// One more name adds its position.
proof fn lemma_positions_push(
    names: Seq<Seq<char>>,
    name: Seq<char>,
    catalog: Seq<Seq<char>>,
    at: usize,
)
    requires
        at < catalog.len(),
        catalog[at as int] == name,
        catalog.no_duplicates(),
    ensures
        positions(names.push(name), catalog) == positions(names, catalog).union(set![at]),
{
    let more = names.push(name);
    assert forall|i: usize| positions(more, catalog).contains(i) <==> positions(
        names,
        catalog,
    ).union(set![at]).contains(i) by {
        if positions(more, catalog).contains(i) {
            let k = choose|k: int| 0 <= k < more.len() && more[k] == catalog[i as int];
            if k < names.len() {
                assert(names[k] == catalog[i as int]);
            } else {
                assert(catalog[i as int] == catalog[at as int]);
            }
        }
        if positions(names, catalog).contains(i) {
            let k = choose|k: int| 0 <= k < names.len() && names[k] == catalog[i as int];
            assert(more[k] == catalog[i as int]);
        }
        assert(more[names.len() as int] == name);
    }
    assert(positions(more, catalog) =~= positions(names, catalog).union(set![at]));
}

/// The first thing wrong stays the first.
proof fn lemma_flaw_stays(w: Workload, k: nat, n: nat)
    requires
        k <= n,
        w.flaw_upto(k) is Some,
    ensures
        w.flaw_upto(n) == w.flaw_upto(k),
    decreases n,
{
    if k < n {
        lemma_flaw_stays(w, k, (n - 1) as nat);
    }
}

/// Nothing is wrong with any of the jobs.
pub proof fn lemma_flawless(w: Workload, n: nat, i: int)
    requires
        w.flaw_upto(n) is None,
        0 <= i < n,
    ensures
        w.flaw_at(i) is None,
    decreases n,
{
    if i < n - 1 {
        lemma_flawless(w, (n - 1) as nat, i);
    }
}

/// Adds a name to names in order, unless it is there.
pub fn add_name(names: &mut Vec<String>, name: &String) -> (fresh: bool)
    requires
        in_order(texts(old(names)@)),
    ensures
        in_order(texts(final(names)@)),
        fresh == !texts(old(names)@).contains(name@),
        texts(final(names)@).to_set() == texts(old(names)@).to_set().insert(name@),
{
    let ghost before = texts(names@);
    let at: usize = place(names, name.as_str());
    proof {
        lemma_place(before, name@, at as int);
    }
    if at < names.len() && names[at] == *name {
        assert(before[at as int] == name@);
        assert(before.to_set() =~= before.to_set().insert(name@));
        return false;
    }
    assert(at < before.len() ==> before[at as int] == names@[at as int]@);
    names.insert(at, name.clone());
    proof {
        let after = texts(names@);
        assert(after =~= before.insert(at as int, name@));
        assert forall|n: Seq<char>| after.to_set().contains(n) <==> before.to_set().insert(
            name@,
        ).contains(n) by {
            if after.contains(n) {
                let k = choose|k: int| 0 <= k < after.len() && after[k] == n;
                if k < at {
                    assert(before[k] == n);
                } else if k > at {
                    assert(before[k - 1] == n);
                }
            }
            if before.contains(n) {
                let k = choose|k: int| 0 <= k < before.len() && before[k] == n;
                if k < at {
                    assert(after[k] == n);
                } else {
                    assert(after[k + 1] == n);
                }
            }
            assert(after[at as int] == name@);
        }
        assert(after.to_set() =~= before.to_set().insert(name@));
    }
    true
}

impl Workload {
    pub proof fn lemma_arrival_orders(self, whole: Set<usize>)
        ensures
            orders(|a: usize, b: usize| self.arrives_before(a, b), whole),
    {
    }

    /// The checks of every job, if nothing is wrong with the workload.
    fn inspect(&self, costs: &Costs) -> (checks: Result<Vec<Checks>, InputError>)
        requires
            costs@ == self.rates(),
        ensures
            match checks {
                Ok(checks) => {
                    &&& self.flaw() is None
                    &&& checks.len() == self.jobs.len()
                    &&& forall|i: int|
                        0 <= i < checks.len() ==> (#[trigger] checks@[i])@ == self.wanted(
                            self.jobs@[i],
                        ) && costs.covers(checks@[i])
                },
                Err(error) => self.flaw() == Some(error.0@),
            },
    {
        let ghost labels = self.labels();
        let mut seen: Vec<String> = Vec::new();
        let mut checks: Vec<Checks> = Vec::new();
        let mut i: usize = 0;
        assert(texts(seen@).to_set() =~= labels.take(0).to_set());
        while i < self.jobs.len()
            invariant
                costs@ == self.rates(),
                labels == self.labels(),
                i <= self.jobs.len(),
                checks.len() == i,
                self.flaw_upto(i as nat) is None,
                in_order(texts(seen@)),
                texts(seen@).to_set() == labels.take(i as int).to_set(),
                forall|k: int|
                    0 <= k < i ==> (#[trigger] checks@[k])@ == self.wanted(self.jobs@[k])
                        && costs.covers(checks@[k]),
            decreases self.jobs.len() - i,
        {
            let job: &Job = &self.jobs[i];
            let ghost known = texts(seen@);
            proof {
                assert(labels[i as int] == job.job_id@);
                assert(labels.take(i + 1) =~= labels.take(i as int).push(job.job_id@));
                labels.take(i as int).lemma_push_to_set_commute(job.job_id@);
                assert(known.to_set().contains(job.job_id@) == known.contains(job.job_id@));
                assert(labels.take(i as int).to_set().contains(job.job_id@) == labels.take(
                    i as int,
                ).contains(job.job_id@));
                if self.flaw_upto((i + 1) as nat) is Some {
                    lemma_flaw_stays(*self, (i + 1) as nat, self.jobs@.len());
                }
            }
            if !add_name(&mut seen, &job.job_id) {
                return Err(InputError(Fault::DuplicateJob { job: job.job_id.clone() }));
            }
            match self.look_up(job, costs) {
                Err(check) => {
                    return Err(
                        InputError(Fault::UnknownCheck { job: job.job_id.clone(), check }),
                    );
                },
                Ok(wanted) => {
                    if costs.duration(&wanted) > self.sla_s as u128 {
                        return Err(InputError(Fault::TooLong { job: job.job_id.clone() }));
                    }
                    if job.arrived_at_s > u64::MAX - self.sla_s {
                        return Err(
                            InputError(Fault::DeadlineOverflow { job: job.job_id.clone() }),
                        );
                    }
                    checks.push(wanted);
                },
            }
            i = i + 1;
        }
        Ok(checks)
    }

    /// Validates the workload, and puts its jobs in order of arrival.
    pub fn prepare(self) -> (prepared: Result<Prepared, InputError>)
        ensures
            match prepared {
                Ok(prepared) => self.flaw() is None && prepares(prepared, self) && lined_up(
                    self,
                    prepared,
                ),
                Err(error) => self.flaw() == Some(error.0@),
            },
            prepared is Ok <==> forall|i: int|
                0 <= i < self.jobs@.len() ==> #[trigger] proper_job(self, i),
    {
        proof {
            lemma_accepted(self);
        }
        let costs: Costs = Costs { boot: self.boot_s, checks: self.check_costs_s.costs() };
        let checks: Vec<Checks> = match self.inspect(&costs) {
            Ok(checks) => checks,
            Err(error) => {
                return Err(error);
            },
        };
        let jobs: &Vec<Job> = &self.jobs;
        let n: usize = jobs.len();
        let ghost lt = |a: usize, b: usize| self.arrives_before(a, b);
        let before = |a: usize, b: usize| -> (less: bool)
            requires
                a < jobs.len(),
                b < jobs.len(),
            ensures
                less == (jobs@[a as int].arrived_at_s < jobs@[b as int].arrived_at_s
                    || jobs@[a as int].arrived_at_s == jobs@[b as int].arrived_at_s && a < b),
            {
                jobs[a].arrived_at_s < jobs[b].arrived_at_s || jobs[a].arrived_at_s
                    == jobs[b].arrived_at_s && a < b
            };
        proof {
            self.lemma_arrival_orders(upto(n as nat));
        }
        let order: Vec<usize> = arrange(n, before, Ghost(lt));
        let mut labels: Vec<String> = Vec::new();
        let mut arrivals: Vec<Arrival> = Vec::new();
        let mut i: usize = 0;
        while i < n
            invariant
                jobs == self.jobs,
                n == jobs.len(),
                n == order.len(),
                n == checks.len(),
                order@.to_set() == upto(n as nat),
                self.flaw() is None,
                forall|k: int|
                    0 <= k < n ==> (#[trigger] checks@[k])@ == self.wanted(self.jobs@[k])
                        && costs.covers(checks@[k]),
                i <= n,
                labels.len() == i,
                arrivals.len() == i,
                forall|k: int| 0 <= k < i ==> (#[trigger] labels@[k])@ == jobs@[k].job_id@,
                forall|k: int|
                    0 <= k < i ==> (#[trigger] arrivals@[k]).job.token == order@[k]
                        && arrivals@[k]@ == self.asks()[order@[k]] && costs.covers(
                        arrivals@[k].job.checks,
                    ),
            decreases n - i,
        {
            labels.push(jobs[i].job_id.clone());
            let token: usize = order[i];
            proof {
                assert(order@.to_set().contains(token));
                lemma_flawless(self, self.jobs@.len(), token as int);
                assert(checks@[token as int]@ == self.wanted(self.jobs@[token as int]));
            }
            let job: &Job = &jobs[token];
            let wanted: Checks = checks[token].clone();
            assert(wanted.0@ == checks@[token as int].0@);
            arrivals.push(
                Arrival {
                    at: job.arrived_at_s,
                    repo: job.repo.clone(),
                    job: Pending {
                        token,
                        deadline: job.arrived_at_s + self.sla_s,
                        checks: wanted,
                    },
                },
            );
            i = i + 1;
        }
        let prepared = Prepared { costs, labels, arrivals };
        proof {
            assert(texts(prepared.labels@) =~= self.labels());
            assert(prepared.arrivals@.map_values(|arrival: Arrival| arrival.job.token)
                =~= order@);
        }
        proof {
            lemma_lined_up(self, prepared);
        }
        Ok(prepared)
    }
}

/// How a text is shown in quotes.
pub uninterp spec fn quoted(text: Seq<char>) -> Seq<char>;

/// Shows a text as `std`'s `{:?}` formatting of a `str` does: in double quotes, with
/// special characters escaped. The contract claims that what is shown depends on the text
/// alone; which characters are escaped, and how, it leaves unsaid.
#[verifier::external_body]
fn quote(text: &str) -> (shown: String)
    ensures
        shown@ == quoted(text@),
{
    format!("{:?}", text)
}

/// What is wrong, in a sentence.
pub open spec fn sentence(flaw: Flaw) -> Seq<char> {
    match flaw {
        Flaw::DuplicateJob { job } => "duplicate job ID: "@ + quoted(job),
        Flaw::UnknownCheck { job, check } => "job "@ + quoted(job) + " references unknown check "@
            + quoted(check),
        Flaw::TooLong { job } => "job "@ + quoted(job)
            + " cannot meet its deadline even when launched immediately"@,
        Flaw::DeadlineOverflow { job } => "deadline overflows u64 for job "@ + quoted(job),
    }
}

impl InputError {
    /// What is wrong, in a sentence.
    pub fn message(&self) -> (text: String)
        ensures
            text@ == sentence(self.0@),
    {
        match &self.0 {
            Fault::DuplicateJob { job } => {
                "duplicate job ID: ".to_owned().concat(quote(job.as_str()).as_str())
            },
            Fault::UnknownCheck { job, check } => {
                "job ".to_owned().concat(quote(job.as_str()).as_str()).concat(
                    " references unknown check ",
                ).concat(quote(check.as_str()).as_str())
            },
            Fault::TooLong { job } => {
                "job ".to_owned().concat(quote(job.as_str()).as_str()).concat(
                    " cannot meet its deadline even when launched immediately",
                )
            },
            Fault::DeadlineOverflow { job } => {
                "deadline overflows u64 for job ".to_owned().concat(quote(job.as_str()).as_str())
            },
        }
    }
}

} // verus!
