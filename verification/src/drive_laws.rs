//! How the driver goes through the arrivals.
use vstd::prelude::*;

use crate::lane::Rules;
use crate::state::{arriving, dawn, is_dawn, later, Ask, State};
use crate::state_laws::{
    acceptable, lemma_advance, lemma_arrive, lemma_next, lemma_progress, lemma_ring,
    lemma_ring_waiting, quiet, sane, welcome,
};

verus! {

/// The first arrival time exists, and its jobs are fewer to come afterwards.
pub proof fn lemma_dawn(asks: Map<usize, Ask>)
    requires
        asks.dom().finite(),
        asks.dom().len() > 0,
    ensures
        is_dawn(asks, dawn(asks)),
        later(asks, dawn(asks)).dom().finite(),
        later(asks, dawn(asks)).dom().len() < asks.dom().len(),
        arriving(asks, dawn(asks)).dom().finite(),
{
    lemma_dawn_exists(asks, asks.dom());
    let now = dawn(asks);
    let t = choose|t: usize| #[trigger] asks.contains_key(t) && asks[t].at == now;
    let rest = later(asks, now).dom();
    assert(rest.subset_of(asks.dom().remove(t)));
    vstd::set_lib::lemma_len_subset(rest, asks.dom().remove(t));
    let batch = arriving(asks, now).dom();
    assert(batch.subset_of(asks.dom()));
    vstd::set_lib::lemma_set_subset_finite(asks.dom(), batch);
}

proof fn lemma_dawn_exists(asks: Map<usize, Ask>, some: Set<usize>)
    requires
        some.finite(),
        some.len() > 0,
        some.subset_of(asks.dom()),
    ensures
        some == asks.dom() ==> is_dawn(asks, dawn(asks)),
        exists|t: usize| #[trigger]
            some.contains(t) && forall|u: usize| some.contains(u) ==> asks[t].at <= asks[u].at,
    decreases some.len(),
{
    let x = some.choose();
    let rest = some.remove(x);
    if rest.len() == 0 {
        assert forall|u: usize| some.contains(u) implies asks[x].at <= asks[u].at by {
            if u != x {
                assert(rest.contains(u));
            }
        }
        assert(some.contains(x));
    } else {
        lemma_dawn_exists(asks, rest);
        let t = choose|t: usize| #[trigger]
            rest.contains(t) && forall|u: usize| rest.contains(u) ==> asks[t].at <= asks[u].at;
        if asks[x].at <= asks[t].at {
            assert(some.contains(x) && forall|u: usize|
                some.contains(u) ==> asks[x].at <= asks[u].at);
        } else {
            assert(some.contains(t) && forall|u: usize|
                some.contains(u) ==> asks[t].at <= asks[u].at);
        }
    }
    if some == asks.dom() {
        let t = choose|t: usize| #[trigger]
            some.contains(t) && forall|u: usize| some.contains(u) ==> asks[t].at <= asks[u].at;
        assert(asks.contains_key(t));
        assert(is_dawn(asks, asks[t].at));
    }
}

/// The first arrival time is unique.
pub proof fn lemma_dawn_is(asks: Map<usize, Ask>, now: u64)
    requires
        is_dawn(asks, now),
    ensures
        dawn(asks) == now,
{
    let d = dawn(asks);
    assert(is_dawn(asks, d));
    let t = choose|t: usize| #[trigger] asks.contains_key(t) && asks[t].at == now;
    let u = choose|u: usize| #[trigger] asks.contains_key(u) && asks[u].at == d;
    assert(asks.contains_key(t) && asks.contains_key(u));
}

/// Advancing only launches jobs that waited.
pub proof fn lemma_advance_waiting(
    rules: Rules,
    all: Map<usize, Ask>,
    s: State,
    limit: u64,
    inclusive: bool,
)
    requires
        sane(rules, all, s),
        all.dom().finite(),
    ensures
        rules.advance(s, limit, inclusive).waiting().subset_of(s.waiting()),
    decreases s.waiting().len(),
{
    lemma_next(s);
    if s.rung(limit, inclusive) {
        lemma_progress(rules, all, s);
        lemma_ring(rules, all, s);
        lemma_ring_waiting(rules, all, s);
        lemma_advance_waiting(rules, all, rules.ring(s), limit, inclusive);
        assert(rules.ring(s).waiting().subset_of(s.waiting()));
    }
}

/// The jobs in `rest` are still to come.
pub open spec fn underway(
    rules: Rules,
    all: Map<usize, Ask>,
    s: State,
    rest: Map<usize, Ask>,
) -> bool {
    &&& sane(rules, all, s)
    &&& acceptable(rules.rates, all)
    &&& forall|t: usize| #[trigger]
        rest.contains_key(t) ==> all.contains_key(t) && rest[t] == all[t] && !s.waiting().contains(
            t,
        )
}

/// One arrival time after another.
pub proof fn lemma_moment(
    rules: Rules,
    all: Map<usize, Ask>,
    s: State,
    rest: Map<usize, Ask>,
    now: u64,
)
    requires
        underway(rules, all, s, rest),
        is_dawn(rest, now),
    ensures
        welcome(rules, all, rules.advance(s, now, false), arriving(rest, now), now),
        quiet(rules.advance(s, now, false), now),
        quiet(rules.arrive(rules.advance(s, now, false), arriving(rest, now), now), now),
        sane(rules, all, rules.arrive(rules.advance(s, now, false), arriving(rest, now), now)),
        underway(rules, all, rules.moment(s, arriving(rest, now), now), later(rest, now)),
        quiet(rules.moment(s, arriving(rest, now), now), now),
        rules.drive(s, rest) == rules.drive(
            rules.moment(s, arriving(rest, now), now),
            later(rest, now),
        ),
{
    let batch = arriving(rest, now);
    let s1 = rules.advance(s, now, false);
    lemma_advance(rules, all, s, now, false);
    lemma_advance_waiting(rules, all, s, now, false);
    assert(rest.dom().subset_of(all.dom()));
    vstd::set_lib::lemma_set_subset_finite(all.dom(), rest.dom());
    let t = choose|t: usize| #[trigger] rest.contains_key(t) && rest[t].at == now;
    assert(rest.dom().contains(t));
    lemma_dawn(rest);
    lemma_dawn_is(rest, now);
    assert forall|t: usize| #[trigger] batch.contains_key(t) implies all.contains_key(t)
        && batch[t] == all[t] && all[t].at == now && !s1.waiting().contains(t) by {
        assert(rest.contains_key(t));
    }
    lemma_arrive(rules, all, s1, batch, now);
    let s2 = rules.arrive(s1, batch, now);
    lemma_advance(rules, all, s2, now, true);
    lemma_advance_waiting(rules, all, s2, now, true);
    let s3 = rules.moment(s, batch, now);
    let rest2 = later(rest, now);
    assert forall|t: usize| #[trigger] rest2.contains_key(t) implies all.contains_key(t) && rest2[t]
        == all[t] && !s3.waiting().contains(t) by {
        assert(rest.contains_key(t));
        if s3.waiting().contains(t) {
            assert(s2.waiting().contains(t));
            assert(!batch.contains_key(t));
            assert(s1.waiting().contains(t));
        }
    }
}

} // verus!
