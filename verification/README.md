# CI batch scheduler

A simulator that groups CI jobs of one repository onto fewer machines, written in Verus.
Jobs in a batch share startup and run each distinct check once. Every job finishes within
its deadline.

## How it works

Each repository has a pool of waiting jobs. When jobs arrive, the scheduler tries adding
them to the planned batches. It then looks for a better grouping: fewer machines first,
less total execution time second. It keeps the existing plan when the scores tie.

A batch takes startup plus the time of its distinct checks. Its earliest deadline says how
long it can wait. Until it is launched its membership can change; afterwards it cannot.

`--policy count` rearranges planned batches only to save machines.

## Layout

- `src/` is the library. `simulate` takes a workload and returns the schedule.
  - `model`, `catalog`: workloads, schedules, and what makes a workload unacceptable
  - `checks`, `group`: sets of checks, waiting jobs, planned batches
  - `planner`, `exact`, `search`, `memo`: making a plan
  - `repository`, `scheduler`, `simulation`: timers, launches, and the driver
  - `cli`: what the command line asks for
  - `shape`, `partition`, `team`, `cover`, `hunt`, `plan`, `roster`, `lane`, `state`: what
    all of these compute, over sets, sequences and maps
- `app/` reads arguments and JSON, and writes JSON.
- `tests/` runs the library.
- `extras/regroup.json` is a small workload to try.

## What is proved

`simulate` returns exactly the schedule that `state::Rules::run` describes, or says what is
wrong with the first job that has something wrong. Of every such schedule:

- Every job is in exactly one batch (`workload_laws::lemma_complete`).
- A batch has jobs of one repository, starts after they have arrived, and ends by their
  deadlines (`workload_laws::lemma_fair`); it starts no earlier than it must
  (`ledger::lemma_schedule`).
- What is launched by some time is decided by the requests that have arrived by then.
  Later jobs, job IDs, and the order of jobs and checks make no difference
  (`workload_laws::lemma_requests_decide`).
- Each repository is served as if it were alone (`solo::lemma_solo`).
- A launched batch never changes (`foresight::lemma_launches_stay`).
- The member lists of a plan name every waiting job once, old members in front of newcomers
  (`roster_plan::lemma_plan_roll`, `seating::lemma_insertion`), and planning again for the
  same jobs changes nothing (`roster_plan::lemma_plan_again`).
- A plan is the best there is for the waiting jobs, unless the bounded search stopped at a
  limit (`plan_best::lemma_plan_best`), and jobs that are all known at once are served in
  the best way (`frugal::lemma_known_best`, `workload_laws::lemma_few_kinds`).
