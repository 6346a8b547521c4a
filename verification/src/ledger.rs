//! The books balance: every job that has arrived waits, or is in one launch.
use vstd::prelude::*;

use crate::drive_laws::{lemma_dawn, lemma_moment, underway};
use crate::lane::{fired, Launch, Repo, Rules};
use crate::lane_laws::{lemma_fired, steady, timely};
use crate::shape::{gather, lemma_gather_agree, lemma_gather_urgent, Rates};
use crate::state::{arriving, dawn, later, Ask, State};
use crate::state_laws::{
    acceptable, lemma_advance, lemma_arrive, lemma_next, lemma_progress, lemma_ring,
    lemma_ring_waiting, quiet, sane, welcome, wishes,
};

verus! {

/// A launched batch has jobs of one repository, after they arrive, and starts exactly
/// when it must.
pub open spec fn booked(rates: Rates, all: Map<usize, Ask>, launch: Launch) -> bool {
    &&& timely(rates, wishes(all), launch)
    &&& forall|t: usize| #[trigger]
        launch.jobs.contains(t) ==> all.contains_key(t) && all[t].at <= launch.at
    &&& forall|t: usize, u: usize| #[trigger]
        launch.jobs.contains(t) && #[trigger] launch.jobs.contains(u) ==> all[t].repo == all[u].repo
}

/// Every job in `arrived` waits, or is in one launch. Launches are in order of time.
#[verifier::opaque]
pub open spec fn balanced(
    rates: Rates,
    all: Map<usize, Ask>,
    arrived: Set<usize>,
    s: State,
    clock: u64,
) -> bool {
    &&& forall|i: int|
        0 <= i < s.launches.len() ==> booked(rates, all, #[trigger] s.launches[i])
            && s.launches[i].at <= clock
    &&& forall|i: int, j: int|
        0 <= i < j < s.launches.len() ==> (#[trigger] s.launches[i]).at <= (
        #[trigger] s.launches[j]).at
    &&& forall|i: int, j: int, t: usize|
        0 <= i < s.launches.len() && 0 <= j < s.launches.len()
            && #[trigger] s.launches[i].jobs.contains(t) && #[trigger] s.launches[j].jobs.contains(
            t,
        ) ==> i == j
    &&& forall|i: int, t: usize|
        0 <= i < s.launches.len() && #[trigger] s.launches[i].jobs.contains(t) ==> arrived.contains(
            t,
        ) && !s.waiting().contains(t)
    &&& forall|t: usize| #[trigger]
        arrived.contains(t) && !s.waiting().contains(t) ==> exists|i: int|
            0 <= i < s.launches.len() && #[trigger] s.launches[i].jobs.contains(t)
    &&& forall|t: usize| #[trigger]
        s.waiting().contains(t) ==> arrived.contains(t) && all[t].at <= clock
}

/// Time may pass.
proof fn lemma_later(
    rates: Rates,
    all: Map<usize, Ask>,
    arrived: Set<usize>,
    s: State,
    clock: u64,
    clock2: u64,
)
    requires
        balanced(rates, all, arrived, s, clock),
        clock <= clock2,
    ensures
        balanced(rates, all, arrived, s, clock2),
{
    reveal(balanced);
}

/// The launches of one ring are booked.
proof fn lemma_ring_booked(
    rules: Rules,
    all: Map<usize, Ask>,
    arrived: Set<usize>,
    s: State,
    clock: u64,
    i: int,
)
    requires
        sane(rules, all, s),
        !s.idle(),
        quiet(s, clock),
        balanced(rules.rates, all, arrived, s, clock),
        0 <= i < fired(rules.rates, s.next_wake()->0, s.repos[s.next()]).1.len(),
    ensures
        booked(
            rules.rates,
            all,
            fired(rules.rates, s.next_wake()->0, s.repos[s.next()]).1[i],
        ),
{
    let name = s.next();
    let repo = s.repos[name];
    let now = s.next_wake()->0;
    lemma_ring(rules, all, s);
    lemma_ring_waiting(rules, all, s);
    lemma_fired(rules, repo);
    let launches = fired(rules.rates, now, repo).1;
    let launch = launches[i];
    assert(launches[i].at == now && timely(rules.rates, repo.items, launches[i]));
    assert forall|t: usize| #[trigger] launch.jobs.contains(t) implies all.contains_key(t)
        && all[t].at <= launch.at && all[t].repo == name && repo.items[t] == wishes(all)[t] by {
        assert(launches[i].jobs.contains(t));
        assert(repo.items.contains_key(t));
        assert(s.waiting().contains(t));
        assert(all[t].at <= clock) by {
            reveal(balanced);
        }
    }
    lemma_gather_agree(repo.items, wishes(all), launch.jobs);
}

/// A ring keeps the books balanced.
proof fn lemma_ring_balanced(
    rules: Rules,
    all: Map<usize, Ask>,
    arrived: Set<usize>,
    s: State,
    clock: u64,
)
    requires
        sane(rules, all, s),
        !s.idle(),
        quiet(s, clock),
        balanced(rules.rates, all, arrived, s, clock),
    ensures
        balanced(rules.rates, all, arrived, rules.ring(s), s.next_wake()->0),
        clock <= s.next_wake()->0,
{
    let name = s.next();
    let repo = s.repos[name];
    let now = s.next_wake()->0;
    let after = rules.ring(s);
    lemma_next(s);
    lemma_ring(rules, all, s);
    lemma_ring_waiting(rules, all, s);
    lemma_fired(rules, repo);
    let (left, shots) = fired(rules.rates, now, repo);
    let n = s.launches.len() as int;
    let l = after.launches;
    reveal(balanced);
    assert(clock <= now);
    assert forall|i: int| 0 <= i < l.len() implies booked(rules.rates, all, #[trigger] l[i])
        && l[i].at <= now && (i >= n ==> l[i].at == now && l[i] == shots[i - n]) && (i < n ==> l[i]
        == s.launches[i]) by {
        if i < n {
            assert(l[i] == s.launches[i]);
        } else {
            assert(l[i] == shots[i - n]);
            lemma_ring_booked(rules, all, arrived, s, clock, i - n);
            assert(shots[i - n].at == now);
        }
    }
    assert forall|i: int, j: int| 0 <= i < j < l.len() implies (#[trigger] l[i]).at <= (
    #[trigger] l[j]).at by {
        if j < n {
            assert(s.launches[i].at <= s.launches[j].at);
        }
    }
    assert forall|i: int, j: int, t: usize|
        0 <= i < l.len() && 0 <= j < l.len() && #[trigger] l[i].jobs.contains(t)
            && #[trigger] l[j].jobs.contains(t) implies i == j by {
        if i < n && j < n {
            assert(s.launches[i].jobs.contains(t) && s.launches[j].jobs.contains(t));
        } else if i < n {
            assert(s.launches[i].jobs.contains(t));
            assert(shots[j - n].jobs.contains(t));
            assert(s.waiting().contains(t));
        } else if j < n {
            assert(s.launches[j].jobs.contains(t));
            assert(shots[i - n].jobs.contains(t));
            assert(s.waiting().contains(t));
        } else {
            assert(shots[i - n].jobs.contains(t) && shots[j - n].jobs.contains(t));
        }
    }
    assert forall|i: int, t: usize|
        0 <= i < l.len() && #[trigger] l[i].jobs.contains(t) implies arrived.contains(t)
        && !after.waiting().contains(t) by {
        if i < n {
            assert(s.launches[i].jobs.contains(t));
        } else {
            assert(shots[i - n].jobs.contains(t));
            assert(repo.items.contains_key(t) && !left.contains_key(t));
            assert(s.waiting().contains(t));
        }
    }
    assert forall|t: usize| #[trigger]
        arrived.contains(t) && !after.waiting().contains(t) implies exists|i: int|
        0 <= i < l.len() && #[trigger] l[i].jobs.contains(t) by {
        if s.waiting().contains(t) {
            assert(repo.items.contains_key(t) && !left.contains_key(t));
            let i = choose|i: int| 0 <= i < shots.len() && #[trigger] shots[i].jobs.contains(t);
            assert(l[i + n] == shots[i]);
            assert(l[i + n].jobs.contains(t));
        } else {
            let i = choose|i: int|
                0 <= i < s.launches.len() && #[trigger] s.launches[i].jobs.contains(t);
            assert(l[i].jobs.contains(t));
        }
    }
    assert forall|t: usize| #[trigger] after.waiting().contains(t) implies arrived.contains(t)
        && all[t].at <= now by {
        assert(s.waiting().contains(t));
    }
}

/// Advancing keeps the books balanced.
pub proof fn lemma_advance_balanced(
    rules: Rules,
    all: Map<usize, Ask>,
    arrived: Set<usize>,
    s: State,
    clock: u64,
    limit: u64,
    inclusive: bool,
)
    requires
        sane(rules, all, s),
        all.dom().finite(),
        quiet(s, clock),
        clock <= limit,
        balanced(rules.rates, all, arrived, s, clock),
    ensures
        balanced(rules.rates, all, arrived, rules.advance(s, limit, inclusive), limit),
    decreases s.waiting().len(),
{
    lemma_next(s);
    if s.rung(limit, inclusive) {
        lemma_progress(rules, all, s);
        lemma_ring(rules, all, s);
        lemma_ring_balanced(rules, all, arrived, s, clock);
        lemma_advance_balanced(
            rules,
            all,
            arrived,
            rules.ring(s),
            s.next_wake()->0,
            limit,
            inclusive,
        );
    } else {
        lemma_later(rules.rates, all, arrived, s, clock, limit);
    }
}

/// Arrivals keep the books balanced.
proof fn lemma_arrive_balanced(
    rules: Rules,
    all: Map<usize, Ask>,
    arrived: Set<usize>,
    s: State,
    batch: Map<usize, Ask>,
    now: u64,
)
    requires
        welcome(rules, all, s, batch, now),
        balanced(rules.rates, all, arrived, s, now),
        arrived.disjoint(batch.dom()),
    ensures
        balanced(
            rules.rates,
            all,
            arrived.union(batch.dom()),
            rules.arrive(s, batch, now),
            now,
        ),
{
    let after = rules.arrive(s, batch, now);
    lemma_arrive(rules, all, s, batch, now);
    reveal(balanced);
    assert forall|i: int, t: usize|
        0 <= i < after.launches.len() && #[trigger] after.launches[i].jobs.contains(
            t,
        ) implies arrived.union(batch.dom()).contains(t) && !after.waiting().contains(t) by {
        assert(s.launches[i].jobs.contains(t));
        assert(!batch.dom().contains(t));
    }
    assert forall|t: usize| #[trigger]
        arrived.union(batch.dom()).contains(t) && !after.waiting().contains(t) implies exists|i: int|
        0 <= i < after.launches.len() && #[trigger] after.launches[i].jobs.contains(t) by {
        assert(arrived.contains(t) && !s.waiting().contains(t));
        let i = choose|i: int|
            0 <= i < s.launches.len() && #[trigger] s.launches[i].jobs.contains(t);
        assert(after.launches[i].jobs.contains(t));
    }
}

/// Going through the arrivals keeps the books balanced.
pub proof fn lemma_drive_balanced(
    rules: Rules,
    all: Map<usize, Ask>,
    arrived: Set<usize>,
    s: State,
    rest: Map<usize, Ask>,
    clock: u64,
) -> (end: u64)
    requires
        underway(rules, all, s, rest),
        quiet(s, clock),
        balanced(rules.rates, all, arrived, s, clock),
        arrived.disjoint(rest.dom()),
        forall|t: usize| #[trigger] rest.contains_key(t) ==> clock <= rest[t].at,
    ensures
        sane(rules, all, rules.drive(s, rest)),
        quiet(rules.drive(s, rest), end),
        balanced(rules.rates, all, arrived.union(rest.dom()), rules.drive(s, rest), end),
        clock <= end,
        end == clock || exists|t: usize| #[trigger] rest.contains_key(t) && rest[t].at == end,
    decreases rest.dom().len(),
{
    assert(rest.dom().subset_of(all.dom()));
    vstd::set_lib::lemma_set_subset_finite(all.dom(), rest.dom());
    if rest.dom().len() == 0 {
        assert(rest.dom() =~= Set::empty());
        assert(arrived.union(rest.dom()) =~= arrived);
        clock
    } else {
        lemma_dawn(rest);
        let now = dawn(rest);
        let batch = arriving(rest, now);
        let rest2 = later(rest, now);
        let s1 = rules.advance(s, now, false);
        let s2 = rules.arrive(s1, batch, now);
        let s3 = rules.moment(s, batch, now);
        lemma_moment(rules, all, s, rest, now);
        let t = choose|t: usize| #[trigger] rest.contains_key(t) && rest[t].at == now;
        assert(clock <= now);
        lemma_advance_balanced(rules, all, arrived, s, clock, now, false);
        lemma_arrive_balanced(rules, all, arrived, s1, batch, now);
        lemma_arrive(rules, all, s1, batch, now);
        lemma_advance_balanced(rules, all, arrived.union(batch.dom()), s2, now, now, true);
        assert(arrived.union(batch.dom()).disjoint(rest2.dom()));
        assert forall|t: usize| #[trigger] rest2.contains_key(t) implies now <= rest2[t].at by {
            assert(rest.contains_key(t));
        }
        let end = lemma_drive_balanced(rules, all, arrived.union(batch.dom()), s3, rest2, now);
        assert(arrived.union(batch.dom()).union(rest2.dom()) =~= arrived.union(rest.dom()));
        if end != now {
            let u = choose|u: usize| #[trigger] rest2.contains_key(u) && rest2[u].at == end;
            assert(rest.contains_key(u));
        }
        end
    }
}

/// A simulation launches every job in exactly one batch. A batch has jobs of one
/// repository, all arrived, and starts exactly when it must for all of them to finish
/// by their deadlines. Batches are in order of time. Nothing waits at the end.
pub proof fn lemma_schedule(rules: Rules, all: Map<usize, Ask>)
    requires
        acceptable(rules.rates, all),
    ensures
        rules.run(all).repos == Map::<Seq<char>, Repo>::empty(),
        forall|i: int|
            0 <= i < rules.run(all).launches.len() ==> booked(
                rules.rates,
                all,
                #[trigger] rules.run(all).launches[i],
            ),
        forall|i: int, j: int|
            0 <= i < j < rules.run(all).launches.len() ==> (#[trigger] rules.run(all).launches[i]).at
                <= (#[trigger] rules.run(all).launches[j]).at,
        forall|i: int, j: int, t: usize|
            0 <= i < rules.run(all).launches.len() && 0 <= j < rules.run(all).launches.len()
                && #[trigger] rules.run(all).launches[i].jobs.contains(t) && #[trigger] rules.run(
                all,
            ).launches[j].jobs.contains(t) ==> i == j,
        forall|t: usize| #[trigger]
            all.contains_key(t) ==> exists|i: int|
                0 <= i < rules.run(all).launches.len() && #[trigger] rules.run(
                    all,
                ).launches[i].jobs.contains(t),
{
    let none = Set::<usize>::empty();
    let start = State::start();
    let mid = rules.drive(start, all);
    let end = rules.run(all);
    assert(underway(rules, all, start, all));
    assert(balanced(rules.rates, all, none, start, 0)) by {
        reveal(balanced);
    }
    let clock = lemma_drive_balanced(rules, all, none, start, all, 0);
    assert(none.union(all.dom()) =~= all.dom());
    lemma_advance_balanced(rules, all, all.dom(), mid, clock, u64::MAX, true);
    lemma_advance(rules, all, mid, u64::MAX, true);
    lemma_next(end);
    assert forall|n: Seq<char>| !end.repos.contains_key(n) by {
        if end.repos.contains_key(n) {
            assert(steady(rules.rates, end.repos[n]));
            assert(end.awake().contains(n));
        }
    }
    assert(end.repos =~= Map::empty());
    reveal(balanced);
}

/// Every job finishes by its deadline: a batch takes at least as long as each job in it,
/// and ends no later than its deadline.
pub proof fn lemma_on_time(rates: Rates, all: Map<usize, Ask>, launch: Launch, t: usize)
    requires
        booked(rates, all, launch),
        launch.jobs.contains(t),
    ensures
        all[t].at <= launch.at,
        launch.at + rates.duration(gather(wishes(all), launch.jobs).checks)
            <= all[t].shape.deadline,
        all[t].shape.checks.subset_of(gather(wishes(all), launch.jobs).checks),
{
    assert(launch.jobs.len() > 0);
    lemma_gather_urgent(wishes(all), launch.jobs);
    assert(all.contains_key(t));
}

} // verus!
