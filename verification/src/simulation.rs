//! The driver: it owns the input, and reveals each job to the scheduler on arrival.
use vstd::prelude::*;

use crate::delivery::{delivers, lemma_delivers};
use crate::drive_laws::{lemma_moment, underway};
use crate::entry::{lemma_refused, proper_job, said_of};
use crate::lane::Rules;
use crate::ledger::lemma_schedule;
use crate::listing::{lemma_listing, lemma_upto, upto};
use crate::model::{
    lemma_flawless, prepares, spelled, Arrival, InputError, Prepared, Schedule, Workload,
};
use crate::policy::{Policy, Stats};
use crate::scheduler::{admits, batch_of, legible, lemma_batch_of, Scheduler};
use crate::shape::{known, Rates};
use crate::state::{arriving, is_dawn, later, Ask, State};
use crate::state_laws::{acceptable, lemma_advance, lemma_advance_twice, lemma_next, sane, welcome};

verus! {

/// What a simulation of this workload comes to.
pub open spec fn outcome(workload: Workload, policy: Policy) -> State {
    Rules { rates: workload.rates(), policy }.run(workload.asks())
}

/// Jobs of a workload with nothing wrong can each finish when launched on arrival.
pub proof fn lemma_acceptable(w: Workload)
    requires
        w.flaw() is None,
    ensures
        acceptable(w.rates(), w.asks()),
{
    let n = w.jobs@.len();
    lemma_upto(n);
    assert(w.asks().dom() =~= upto(n));
    assert forall|t: usize| #[trigger] w.asks().contains_key(t) implies w.rates().fits(
        w.asks()[t].shape,
        w.asks()[t].at,
    ) by {
        lemma_flawless(w, n, t as int);
    }
}

/// Arrivals have distinct tokens and known checks, and the later ones come first.
spec fn stacked(rates: Rates, stack: Seq<Arrival>) -> bool {
    &&& legible(rates, stack)
    &&& forall|i: int, j: int|
        0 <= i <= j < stack.len() ==> (#[trigger] stack[i]).at >= (#[trigger] stack[j]).at
}

/// The batch says of each token what its arrival says.
proof fn lemma_batch_at(arrivals: Seq<Arrival>, i: int)
    requires
        0 <= i < arrivals.len(),
        forall|i: int, j: int|
            0 <= i < arrivals.len() && 0 <= j < arrivals.len() && i != j ==> (
            #[trigger] arrivals[i]).job.token != (#[trigger] arrivals[j]).job.token,
    ensures
        batch_of(arrivals).contains_key(arrivals[i].job.token),
        batch_of(arrivals)[arrivals[i].job.token] == arrivals[i]@,
    decreases arrivals.len(),
{
    let init = arrivals.drop_last();
    if i < init.len() {
        assert(init[i] == arrivals[i]);
        assert forall|a: int, b: int| 0 <= a < init.len() && 0 <= b < init.len() && a != b implies (
        #[trigger] init[a]).job.token != (#[trigger] init[b]).job.token by {
            assert(arrivals[a].job.token != arrivals[b].job.token);
        }
        lemma_batch_at(init, i);
        assert(arrivals[i].job.token != arrivals[arrivals.len() - 1].job.token);
    }
}

/// The top of the stack is what arrives first.
proof fn lemma_stack_cut(
    rates: Rates,
    stack: Seq<Arrival>,
    rest: Seq<Arrival>,
    arrived: Seq<Arrival>,
    now: u64,
)
    requires
        stacked(rates, stack),
        stack.len() > 0,
        now == stack.last().at,
        rest.len() <= stack.len(),
        rest == stack.take(rest.len() as int),
        arrived.len() == stack.len() - rest.len(),
        forall|k: int| 0 <= k < arrived.len() ==> #[trigger] arrived[k] == stack[stack.len() - 1 - k],
        forall|k: int| 0 <= k < arrived.len() ==> (#[trigger] arrived[k]).at == now,
        rest.len() > 0 ==> rest.last().at != now,
    ensures
        stacked(rates, rest),
        is_dawn(batch_of(stack), now),
        arriving(batch_of(stack), now) == batch_of(arrived),
        later(batch_of(stack), now) == batch_of(rest),
        legible(rates, arrived),
{
    let n = stack.len() as int;
    let m = rest.len() as int;
    let asks = batch_of(stack);
    assert forall|i: int, j: int|
        0 <= i < arrived.len() && 0 <= j < arrived.len() && i != j implies (
    #[trigger] arrived[i]).job.token != (#[trigger] arrived[j]).job.token by {
        assert(stack[n - 1 - i].job.token != stack[n - 1 - j].job.token);
    }
    assert forall|i: int| 0 <= i < m implies #[trigger] rest[i] == stack[i] by {}
    assert(stacked(rates, rest));
    assert forall|i: int| 0 <= i < n implies (#[trigger] stack[i]).at == now <==> i >= m by {
        if i < m {
            assert(stack[i].at >= stack[m - 1].at);
            assert(rest.last() == stack[m - 1]);
            assert(stack[m - 1].at >= stack[n - 1].at);
        } else {
            assert(arrived[n - 1 - i] == stack[i]);
        }
    }
    assert forall|t: usize| #[trigger] asks.contains_key(t) implies exists|i: int|
        0 <= i < n && (#[trigger] stack[i]).job.token == t && asks[t] == stack[i]@ by {
        lemma_batch_of(stack, t);
        let i = choose|i: int| 0 <= i < n && (#[trigger] stack[i]).job.token == t;
        lemma_batch_at(stack, i);
    }
    lemma_batch_at(stack, n - 1);
    assert(asks.contains_key(stack[n - 1].job.token));
    assert forall|t: usize| #[trigger] asks.contains_key(t) implies now <= asks[t].at by {
        let i = choose|i: int|
            0 <= i < n && (#[trigger] stack[i]).job.token == t && asks[t] == stack[i]@;
        assert(stack[i].at >= stack[n - 1].at);
    }
    let first = arriving(asks, now);
    assert forall|t: usize| #[trigger] first.contains_key(t) <==> batch_of(arrived).contains_key(
        t,
    ) by {
        lemma_batch_of(arrived, t);
        if first.contains_key(t) {
            let i = choose|i: int|
                0 <= i < n && (#[trigger] stack[i]).job.token == t && asks[t] == stack[i]@;
            assert(arrived[n - 1 - i].job.token == t);
        }
        if batch_of(arrived).contains_key(t) {
            let k = choose|k: int| 0 <= k < arrived.len() && (#[trigger] arrived[k]).job.token == t;
            lemma_batch_at(stack, n - 1 - k);
        }
    }
    assert forall|t: usize| #[trigger] first.contains_key(t) implies first[t] == batch_of(
        arrived,
    )[t] by {
        let i = choose|i: int|
            0 <= i < n && (#[trigger] stack[i]).job.token == t && asks[t] == stack[i]@;
        lemma_batch_at(arrived, n - 1 - i);
    }
    assert(first =~= batch_of(arrived));
    let future = later(asks, now);
    assert forall|t: usize| #[trigger] future.contains_key(t) <==> batch_of(rest).contains_key(t) by {
        lemma_batch_of(rest, t);
        if future.contains_key(t) {
            let i = choose|i: int|
                0 <= i < n && (#[trigger] stack[i]).job.token == t && asks[t] == stack[i]@;
            assert(rest[i].job.token == t);
        }
        if batch_of(rest).contains_key(t) {
            let k = choose|k: int| 0 <= k < rest.len() && (#[trigger] rest[k]).job.token == t;
            lemma_batch_at(stack, k);
            assert(stack[k] == rest[k]);
        }
    }
    assert forall|t: usize| #[trigger] future.contains_key(t) implies future[t] == batch_of(
        rest,
    )[t] by {
        let i = choose|i: int|
            0 <= i < n && (#[trigger] stack[i]).job.token == t && asks[t] == stack[i]@;
        lemma_batch_at(rest, i);
    }
    assert(future =~= batch_of(rest));
}

/// The arrivals with the earliest on top.
fn stack_up(prepared: Vec<Arrival>) -> (stack: Vec<Arrival>)
    ensures
        stack@ == prepared@.reverse(),
{
    let mut left: Vec<Arrival> = prepared;
    let mut stack: Vec<Arrival> = Vec::new();
    let ghost all = left@;
    loop
        invariant
            left.len() + stack.len() == all.len(),
            left@ == all.take(left.len() as int),
            forall|k: int|
                0 <= k < stack.len() ==> #[trigger] stack@[k] == all[all.len() - 1 - k],
        ensures
            left@.len() == 0,
        decreases left.len(),
    {
        let ghost before = left@;
        match left.pop() {
            Some(arrival) => {
                assert(arrival == all[before.len() - 1]);
                assert(left@ =~= all.take(before.len() - 1));
                stack.push(arrival);
            },
            None => {
                break;
            },
        }
    }
    assert(stack@ =~= all.reverse());
    stack
}

/// A prepared workload, stacked up, is what the workload asks for.
proof fn lemma_stacked(w: Workload, prepared: Prepared, stack: Seq<Arrival>)
    requires
        w.flaw() is None,
        prepares(prepared, w),
        stack == prepared.arrivals@.reverse(),
    ensures
        stacked(w.rates(), stack),
        batch_of(stack) == w.asks(),
{
    let order = w.by_arrival();
    let arrivals = prepared.arrivals@;
    let n = w.jobs@.len();
    let lt = |a: usize, b: usize| w.arrives_before(a, b);
    assert(n == w.jobs.len());
    lemma_upto(n);
    w.lemma_arrival_orders(upto(n));
    lemma_listing(upto(n), lt);
    let all_tokens = arrivals.map_values(|arrival: Arrival| arrival.job.token);
    assert(arrivals.len() == order.len()) by {
        assert(all_tokens.len() == arrivals.len());
    }
    assert forall|i: int| 0 <= i < arrivals.len() implies (#[trigger] arrivals[i]).job.token
        == order[i] && arrivals[i]@ == w.asks()[order[i]] && order[i] < n by {
        assert(all_tokens[i] == arrivals[i].job.token);
        assert(order.to_set().contains(order[i]));
    }
    let m = stack.len() as int;
    assert forall|i: int| 0 <= i < stack.len() implies #[trigger] stack[i] == arrivals[m - 1 - i] by {}
    assert forall|i: int| 0 <= i < stack.len() implies (#[trigger] stack[i]).job.checks.wf()
        && known(stack[i].job@, w.rates().checks.len()) by {
        crate::group::lemma_covers(prepared.costs, stack[i].job.checks);
        assert(prepared.costs.covers(arrivals[m - 1 - i].job.checks));
    }
    assert forall|i: int, j: int|
        0 <= i < stack.len() && 0 <= j < stack.len() && i != j implies (
    #[trigger] stack[i]).job.token != (#[trigger] stack[j]).job.token by {
        assert(order[m - 1 - i] != order[m - 1 - j]);
    }
    assert forall|i: int, j: int| 0 <= i <= j < stack.len() implies (#[trigger] stack[i]).at >= (
    #[trigger] stack[j]).at by {
        if i < j {
            assert(lt(order[m - 1 - j], order[m - 1 - i]));
        }
        assert(stack[i].at == stack[i]@.at);
        assert(stack[j].at == stack[j]@.at);
    }
    let asks = batch_of(stack);
    assert forall|t: usize| #[trigger] asks.contains_key(t) <==> w.asks().contains_key(t) by {
        lemma_batch_of(stack, t);
        if asks.contains_key(t) {
            let i = choose|i: int| 0 <= i < m && (#[trigger] stack[i]).job.token == t;
            assert(arrivals[m - 1 - i].job.token == order[m - 1 - i]);
        }
        if w.asks().contains_key(t) {
            assert(upto(n).contains(t));
            assert(order.to_set().contains(t));
            let k = choose|k: int| 0 <= k < order.len() && order[k] == t;
            assert(arrivals[k].job.token == t);
            assert(stack[m - 1 - k].job.token == t);
        }
    }
    assert forall|t: usize| #[trigger] asks.contains_key(t) implies asks[t] == w.asks()[t] by {
        lemma_batch_of(stack, t);
        let i = choose|i: int| 0 <= i < m && (#[trigger] stack[i]).job.token == t;
        lemma_batch_at(stack, i);
        assert(arrivals[m - 1 - i].job.token == order[m - 1 - i]);
    }
    assert(asks =~= w.asks());
}

/// Takes those that arrive now off the stack.
fn unstack(stack: &mut Vec<Arrival>, now: u64, Ghost(rates): Ghost<Rates>) -> (arrived: Vec<Arrival>)
    requires
        stacked(rates, old(stack)@),
        old(stack).len() > 0,
        now == old(stack)@.last().at,
    ensures
        final(stack).len() < old(stack).len(),
        stacked(rates, final(stack)@),
        is_dawn(batch_of(old(stack)@), now),
        arriving(batch_of(old(stack)@), now) == batch_of(arrived@),
        later(batch_of(old(stack)@), now) == batch_of(final(stack)@),
        legible(rates, arrived@),
{
    let ghost all = stack@;
    let mut arrived: Vec<Arrival> = Vec::new();
    while stack.len() > 0 && stack[stack.len() - 1].at == now
        invariant
            stack.len() + arrived.len() == all.len(),
            stack@ == all.take(stack.len() as int),
            now == all.last().at,
            all.len() > 0,
            arrived.len() == 0 ==> stack@ == all,
            forall|k: int|
                0 <= k < arrived.len() ==> #[trigger] arrived@[k] == all[all.len() - 1 - k],
            forall|k: int| 0 <= k < arrived.len() ==> (#[trigger] arrived@[k]).at == now,
        decreases stack.len(),
    {
        let ghost before = stack@;
        if let Some(arrival) = stack.pop() {
            assert(arrival == all[before.len() - 1]);
            assert(stack@ =~= all.take(before.len() - 1));
            arrived.push(arrival);
        }
    }
    proof {
        lemma_stack_cut(rates, all, stack@, arrived@, now);
    }
    arrived
}

/// Arrivals of a workload are admitted when their time comes.
proof fn lemma_welcome_admits(
    rules: Rules,
    all: Map<usize, Ask>,
    s: State,
    batch: Map<usize, Ask>,
    now: u64,
)
    requires
        welcome(rules, all, s, batch, now),
    ensures
        admits(rules, s, batch, now),
{
    let present = s.waiting().union(batch.dom());
    assert forall|t: usize| present.contains(t) implies all.dom().contains(t) by {
        if batch.dom().contains(t) {
            assert(batch.contains_key(t));
        } else {
            let n = choose|n: Seq<char>| #[trigger]
                s.repos.contains_key(n) && s.repos[n].items.contains_key(t);
            assert(all.contains_key(t));
        }
    }
    vstd::set_lib::lemma_len_subset(present, all.dom());
}

/// Validate a workload and schedule it without exposing future jobs to the policy.
///
/// Simulation uses integer time, exact check durations, and unlimited parallel
/// VMs. Every accepted job can finish on its own when launched on arrival.
/// Returns an error before producing a schedule if that condition or the input
/// identity and duration constraints are violated.
pub fn simulate(workload: Workload, policy: Policy) -> (result: Result<
    (Schedule, Stats),
    InputError,
>)
    ensures
        match result {
            Ok((schedule, stats)) => {
                &&& workload.flaw() is None
                &&& delivers(workload, schedule@)
                &&& schedule@ == spelled(workload.labels(), outcome(workload, policy).launches)
                &&& stats == outcome(workload, policy).stats
            },
            Err(error) => workload.flaw() == Some(error.0@) && exists|i: int|
                0 <= i < workload.jobs@.len() && #[trigger] said_of(workload, i, error.0@),
        },
        result is Ok <==> forall|i: int|
            0 <= i < workload.jobs@.len() ==> #[trigger] proper_job(workload, i),
{
    let ghost w = workload;
    proof {
        lemma_refused(w);
    }
    let prepared: Prepared = match workload.prepare() {
        Ok(prepared) => prepared,
        Err(error) => {
            return Err(error);
        },
    };
    let ghost all = w.asks();
    let ghost rules = Rules { rates: w.rates(), policy };
    let ghost ready = prepared;
    proof {
        lemma_acceptable(w);
        assert(crate::names::texts(ready.labels@).len() == w.labels().len());
    }
    let labels: Vec<String> = prepared.labels;
    let mut scheduler: Scheduler = Scheduler::new(prepared.costs, policy);
    let mut stack: Vec<Arrival> = stack_up(prepared.arrivals);
    proof {
        lemma_stacked(w, ready, stack@);
        assert(underway(rules, all, State::start(), all));
    }
    while stack.len() > 0
        invariant
            scheduler.wf(),
            scheduler.rules() == rules,
            stacked(rules.rates, stack@),
            underway(rules, all, scheduler@, batch_of(stack@)),
            rules.drive(State::start(), all) == rules.drive(scheduler@, batch_of(stack@)),
        decreases stack.len(),
    {
        let now: u64 = stack[stack.len() - 1].at;
        let ghost before = scheduler@;
        let ghost rest = batch_of(stack@);
        // Timers before this arrival must fire first. Timers at exactly `now`
        // must wait until every arrival at this timestamp has been revealed.
        scheduler.advance(now, false);
        let arrived: Vec<Arrival> = unstack(&mut stack, now, Ghost(rules.rates));
        proof {
            lemma_moment(rules, all, before, rest, now);
            lemma_welcome_admits(rules, all, scheduler@, batch_of(arrived@), now);
        }
        scheduler.arrive(now, arrived);
        scheduler.advance(now, true);
    }
    let ghost driven = scheduler@;
    proof {
        assert(batch_of(stack@) =~= Map::empty());
        assert(rules.drive(driven, Map::empty()) == driven);
    }
    // EOF is a driver concern. Finish by delivering the already registered
    // timers, exactly as if the next arrival were far in the future.
    loop
        invariant
            scheduler.wf(),
            scheduler.rules() == rules,
            sane(rules, all, scheduler@),
            all.dom().finite(),
            rules.advance(scheduler@, u64::MAX, true) == rules.advance(driven, u64::MAX, true),
        ensures
            scheduler@ == rules.advance(driven, u64::MAX, true),
        decreases scheduler@.waiting().len(),
    {
        match scheduler.next_wake() {
            Some(now) => {
                let ghost before = scheduler@;
                proof {
                    lemma_next(before);
                    crate::state_laws::lemma_progress(rules, all, before);
                    crate::state_laws::lemma_ring(rules, all, before);
                    lemma_advance_twice(rules, before, now, true, u64::MAX, true);
                    lemma_advance(rules, all, before, now, true);
                    crate::drive_laws::lemma_advance_waiting(
                        rules,
                        all,
                        rules.ring(before),
                        now,
                        true,
                    );
                    crate::state_laws::lemma_waiting_finite(rules, all, rules.ring(before));
                }
                scheduler.advance(now, true);
                proof {
                    let after = rules.advance(before, now, true);
                    assert(after == rules.advance(rules.ring(before), now, true));
                    vstd::set_lib::lemma_len_subset(
                        after.waiting(),
                        rules.ring(before).waiting(),
                    );
                }
            },
            None => {
                break;
            },
        }
    }
    proof {
        lemma_schedule(rules, all);
        assert forall|i: int, t: usize|
            0 <= i < scheduler@.launches.len() && #[trigger] scheduler@.launches[i].jobs.contains(
                t,
            ) implies t < labels.len() by {
            assert(crate::ledger::booked(rules.rates, all, rules.run(all).launches[i]));
            assert(all.contains_key(t));
        }
    }
    let out: (Schedule, Stats) = scheduler.output(&labels);
    proof {
        lemma_delivers(w, policy);
    }
    Ok(out)
}

} // verus!
