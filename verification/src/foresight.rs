//! What is still to come changes nothing that has happened.
use vstd::prelude::*;

use crate::drive_laws::{lemma_dawn, lemma_dawn_is, lemma_moment, underway};
use crate::lane::{fired, Launch, Rules};
use crate::lane_laws::lemma_fired;
use crate::state::{arriving, dawn, is_dawn, later, Ask, State};
use crate::state_laws::{
    acceptable, lemma_advance, lemma_advance_twice, lemma_arrive, lemma_next, lemma_progress,
    lemma_ring, sane,
};

verus! {

/// Launched batches stay as they are, in their places; all others come later.
pub open spec fn extends(before: Seq<Launch>, after: Seq<Launch>, cutoff: int) -> bool {
    &&& before.len() <= after.len()
    &&& forall|i: int| 0 <= i < before.len() ==> #[trigger] after[i] == before[i]
    &&& forall|i: int| before.len() <= i < after.len() ==> (#[trigger] after[i]).at > cutoff
}

proof fn lemma_extends_twice(a: Seq<Launch>, b: Seq<Launch>, c: Seq<Launch>, cutoff: int)
    requires
        extends(a, b, cutoff),
        extends(b, c, cutoff),
    ensures
        extends(a, c, cutoff),
{
    assert forall|i: int| 0 <= i < a.len() implies #[trigger] c[i] == a[i] by {
        assert(b[i] == a[i]);
        assert(c[i] == b[i]);
    }
    assert forall|i: int| a.len() <= i < c.len() implies (#[trigger] c[i]).at > cutoff by {
        if i < b.len() {
            assert(c[i] == b[i]);
        }
    }
}

/// Every timer rings after the cutoff.
pub open spec fn hushed(s: State, cutoff: int) -> bool {
    forall|name: Seq<char>| #[trigger]
        s.repos.contains_key(name) && s.repos[name].wake is Some ==> cutoff
            < s.repos[name].wake->0
}

/// Advancing launches at the times at which timers ring, and changes no launched batch.
pub proof fn lemma_advance_extends(
    rules: Rules,
    all: Map<usize, Ask>,
    s: State,
    limit: u64,
    inclusive: bool,
    cutoff: int,
)
    requires
        sane(rules, all, s),
        all.dom().finite(),
        hushed(s, cutoff),
    ensures
        extends(s.launches, rules.advance(s, limit, inclusive).launches, cutoff),
        hushed(rules.advance(s, limit, inclusive), cutoff),
    decreases s.waiting().len(),
{
    lemma_next(s);
    if s.rung(limit, inclusive) {
        let now = s.next_wake()->0;
        let name = s.next();
        let after = rules.ring(s);
        lemma_progress(rules, all, s);
        lemma_ring(rules, all, s);
        lemma_fired(rules, s.repos[name]);
        assert(s.repos.contains_key(name) && s.repos[name].wake is Some);
        assert(cutoff < now);
        let shots = fired(rules.rates, now, s.repos[name]).1;
        assert(extends(s.launches, after.launches, cutoff)) by {
            assert forall|i: int|
                s.launches.len() <= i < after.launches.len() implies (#[trigger] after.launches[i]).at
                > cutoff by {
                assert(after.launches[i] == shots[i - s.launches.len()]);
            }
        }
        assert forall|n: Seq<char>| #[trigger]
            after.repos.contains_key(n) && after.repos[n].wake is Some implies cutoff
            < after.repos[n].wake->0 by {
            assert(now <= after.repos[n].wake->0);
        }
        lemma_advance_extends(rules, all, after, limit, inclusive, cutoff);
        lemma_extends_twice(
            s.launches,
            after.launches,
            rules.advance(s, limit, inclusive).launches,
            cutoff,
        );
    }
}

/// An arrival time after the cutoff launches only after the cutoff, and changes no
/// launched batch.
proof fn lemma_moment_extends(
    rules: Rules,
    all: Map<usize, Ask>,
    s: State,
    rest: Map<usize, Ask>,
    now: u64,
    cutoff: int,
)
    requires
        underway(rules, all, s, rest),
        is_dawn(rest, now),
        cutoff < now,
        hushed(s, cutoff),
    ensures
        extends(s.launches, rules.moment(s, arriving(rest, now), now).launches, cutoff),
        hushed(rules.moment(s, arriving(rest, now), now), cutoff),
{
    let batch = arriving(rest, now);
    let s1 = rules.advance(s, now, false);
    let s2 = rules.arrive(s1, batch, now);
    let s3 = rules.moment(s, batch, now);
    lemma_moment(rules, all, s, rest, now);
    lemma_advance_extends(rules, all, s, now, false, cutoff);
    lemma_arrive(rules, all, s1, batch, now);
    assert(hushed(s2, cutoff)) by {
        assert forall|n: Seq<char>| #[trigger]
            s2.repos.contains_key(n) && s2.repos[n].wake is Some implies cutoff
            < s2.repos[n].wake->0 by {
            assert(now <= s2.repos[n].wake->0);
        }
    }
    lemma_advance_extends(rules, all, s2, now, true, cutoff);
    lemma_extends_twice(s.launches, s2.launches, s3.launches, cutoff);
}

/// Arrivals after the cutoff launch only after the cutoff, and change no launched batch.
pub proof fn lemma_drive_extends(
    rules: Rules,
    all: Map<usize, Ask>,
    s: State,
    rest: Map<usize, Ask>,
    cutoff: int,
)
    requires
        underway(rules, all, s, rest),
        hushed(s, cutoff),
        forall|t: usize| #[trigger] rest.contains_key(t) ==> cutoff < rest[t].at,
    ensures
        extends(s.launches, rules.drive(s, rest).launches, cutoff),
        hushed(rules.drive(s, rest), cutoff),
        sane(rules, all, rules.drive(s, rest)),
    decreases rest.dom().len(),
{
    assert(rest.dom().subset_of(all.dom()));
    vstd::set_lib::lemma_set_subset_finite(all.dom(), rest.dom());
    if rest.dom().len() > 0 {
        lemma_dawn(rest);
        let now = dawn(rest);
        let batch = arriving(rest, now);
        let next = rules.moment(s, batch, now);
        let t = choose|t: usize| #[trigger] rest.contains_key(t) && rest[t].at == now;
        assert(cutoff < rest[t].at);
        lemma_moment(rules, all, s, rest, now);
        lemma_moment_extends(rules, all, s, rest, now, cutoff);
        assert forall|t: usize| #[trigger] later(rest, now).contains_key(t) implies cutoff < later(
            rest,
            now,
        )[t].at by {
            assert(rest.contains_key(t));
        }
        lemma_drive_extends(rules, all, next, later(rest, now), cutoff);
        lemma_extends_twice(
            s.launches,
            next.launches,
            rules.drive(s, rest).launches,
            cutoff,
        );
    }
}

/// The jobs that arrive by the cutoff.
pub open spec fn early(asks: Map<usize, Ask>, cutoff: u64) -> Map<usize, Ask> {
    asks.restrict(asks.dom().filter(|t: usize| asks[t].at <= cutoff))
}

/// The jobs that arrive after the cutoff.
pub open spec fn late(asks: Map<usize, Ask>, cutoff: u64) -> Map<usize, Ask> {
    asks.restrict(asks.dom().filter(|t: usize| asks[t].at > cutoff))
}

/// Arrivals can be gone through in two parts.
proof fn lemma_drive_parts(
    rules: Rules,
    all: Map<usize, Ask>,
    s: State,
    rest: Map<usize, Ask>,
    cutoff: u64,
)
    requires
        underway(rules, all, s, rest),
    ensures
        rules.drive(s, rest) == rules.drive(
            rules.drive(s, early(rest, cutoff)),
            late(rest, cutoff),
        ),
        underway(rules, all, rules.drive(s, early(rest, cutoff)), late(rest, cutoff)),
    decreases rest.dom().len(),
{
    let first = early(rest, cutoff);
    let second = late(rest, cutoff);
    assert(rest.dom().subset_of(all.dom()));
    vstd::set_lib::lemma_set_subset_finite(all.dom(), rest.dom());
    assert(first.dom().subset_of(rest.dom()));
    vstd::set_lib::lemma_set_subset_finite(rest.dom(), first.dom());
    if first.dom().len() == 0 {
        assert(first.dom() =~= Set::empty());
        assert(second =~= rest) by {
            assert forall|t: usize| rest.contains_key(t) implies second.contains_key(t) by {
                assert(!first.dom().contains(t));
            }
        }
        assert(rules.drive(s, first) == s);
    } else {
        lemma_dawn(first);
        let now = dawn(first);
        let t = choose|t: usize| #[trigger] first.contains_key(t) && first[t].at == now;
        assert(rest.contains_key(t) && rest[t].at == now);
        assert forall|u: usize| #[trigger] rest.contains_key(u) implies now <= rest[u].at by {
            if rest[u].at <= cutoff {
                assert(first.contains_key(u));
            }
        }
        assert(is_dawn(rest, now));
        lemma_dawn_is(rest, now);
        assert(underway(rules, all, s, first)) by {
            assert forall|u: usize| #[trigger] first.contains_key(u) implies all.contains_key(u)
                && first[u] == all[u] && !s.waiting().contains(u) by {
                assert(rest.contains_key(u));
            }
        }
        lemma_moment(rules, all, s, rest, now);
        lemma_moment(rules, all, s, first, now);
        assert(arriving(rest, now) =~= arriving(first, now));
        let next = rules.moment(s, arriving(rest, now), now);
        lemma_dawn(rest);
        lemma_drive_parts(rules, all, next, later(rest, now), cutoff);
        assert(early(later(rest, now), cutoff) =~= later(first, now));
        assert(late(later(rest, now), cutoff) =~= second);
    }
}

/// The batches launched by the cutoff.
pub open spec fn past(launches: Seq<Launch>, cutoff: u64) -> Seq<Launch> {
    launches.filter(|launch: Launch| launch.at <= cutoff)
}

/// Batches launched after the cutoff do not count.
proof fn lemma_past_extends(before: Seq<Launch>, after: Seq<Launch>, cutoff: u64)
    requires
        extends(before, after, cutoff as int),
    ensures
        past(after, cutoff) == past(before, cutoff),
    decreases after.len(),
{
    reveal(Seq::filter);
    if after.len() == before.len() {
        assert(after =~= before);
    } else {
        assert(after.last() == after[after.len() - 1]);
        assert(extends(before, after.drop_last(), cutoff as int));
        lemma_past_extends(before, after.drop_last(), cutoff);
    }
}

/// What a simulation launches by the cutoff is what is launched by then from the jobs
/// that arrive by then.
proof fn lemma_run_past(rules: Rules, all: Map<usize, Ask>, cutoff: u64)
    requires
        acceptable(rules.rates, all),
    ensures
        past(rules.run(all).launches, cutoff) == past(
            rules.advance(
                rules.drive(State::start(), early(all, cutoff)),
                cutoff,
                true,
            ).launches,
            cutoff,
        ),
{
    let start = State::start();
    let rest = late(all, cutoff);
    let mid = rules.drive(start, early(all, cutoff));
    let then_quiet = rules.advance(mid, cutoff, true);
    assert(underway(rules, all, start, all));
    lemma_drive_parts(rules, all, start, all, cutoff);
    lemma_advance(rules, all, mid, cutoff, true);
    lemma_next(then_quiet);
    assert(hushed(then_quiet, cutoff as int)) by {
        assert forall|n: Seq<char>| #[trigger]
            then_quiet.repos.contains_key(n) && then_quiet.repos[n].wake is Some implies cutoff
            < then_quiet.repos[n].wake->0 by {
            assert(then_quiet.awake().contains(n));
        }
    }
    let driven = rules.drive(mid, rest);
    let end = rules.run(all);
    if rest.dom().len() == 0 {
        assert(driven == mid);
        lemma_advance_twice(rules, mid, cutoff, true, u64::MAX, true);
        lemma_advance_extends(rules, all, then_quiet, u64::MAX, true, cutoff as int);
    } else {
        assert(rest.dom().subset_of(all.dom()));
        vstd::set_lib::lemma_set_subset_finite(all.dom(), rest.dom());
        lemma_dawn(rest);
        let now = dawn(rest);
        let batch = arriving(rest, now);
        let t = choose|t: usize| #[trigger] rest.contains_key(t) && rest[t].at == now;
        assert(cutoff < now);
        crate::drive_laws::lemma_advance_waiting(rules, all, mid, cutoff, true);
        assert(underway(rules, all, then_quiet, rest));
        lemma_advance_twice(rules, mid, cutoff, true, now, false);
        lemma_moment(rules, all, mid, rest, now);
        lemma_moment(rules, all, then_quiet, rest, now);
        assert(rules.moment(mid, batch, now) == rules.moment(then_quiet, batch, now));
        assert(driven == rules.drive(then_quiet, rest));
        lemma_drive_extends(rules, all, then_quiet, rest, cutoff as int);
        lemma_advance_extends(rules, all, driven, u64::MAX, true, cutoff as int);
        lemma_extends_twice(then_quiet.launches, driven.launches, end.launches, cutoff as int);
    }
    lemma_past_extends(then_quiet.launches, end.launches, cutoff);
}

/// What is launched by the cutoff does not depend on the jobs that arrive after it.
pub proof fn lemma_foresight(rules: Rules, one: Map<usize, Ask>, other: Map<usize, Ask>, cutoff: u64)
    requires
        acceptable(rules.rates, one),
        acceptable(rules.rates, other),
        early(one, cutoff) == early(other, cutoff),
    ensures
        past(rules.run(one).launches, cutoff) == past(rules.run(other).launches, cutoff),
{
    lemma_run_past(rules, one, cutoff);
    lemma_run_past(rules, other, cutoff);
}

/// A launched batch never changes: whatever happens next, the launches so far stay as
/// they are, and the new ones come at the times at which timers ring.
pub proof fn lemma_launches_stay(
    rules: Rules,
    all: Map<usize, Ask>,
    s: State,
    rest: Map<usize, Ask>,
)
    requires
        underway(rules, all, s, rest),
    ensures
        s.launches.is_prefix_of(rules.drive(s, rest).launches),
        forall|limit: u64, inclusive: bool| #[trigger]
            s.launches.is_prefix_of(rules.advance(s, limit, inclusive).launches),
{
    lemma_drive_extends(rules, all, s, rest, -1);
    assert(s.launches =~= rules.drive(s, rest).launches.subrange(0, s.launches.len() as int));
    assert forall|limit: u64, inclusive: bool| #[trigger]
        s.launches.is_prefix_of(rules.advance(s, limit, inclusive).launches) by {
        lemma_advance_extends(rules, all, s, limit, inclusive, -1);
        assert(s.launches =~= rules.advance(s, limit, inclusive).launches.subrange(
            0,
            s.launches.len() as int,
        ));
    }
}

} // verus!
