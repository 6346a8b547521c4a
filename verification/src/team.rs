//! Batches that are planned but not launched: what grouping and placing mean.
use vstd::prelude::*;

use crate::bits::{
    bits_lt, lemma_bits_irreflexive, lemma_bits_orders, lemma_bits_total, lemma_bits_transitive,
};
use crate::listing::{
    first, is_first, lemma_first_exists, lemma_listing, lemma_listing_unique, lemma_upto, listing,
    orders, upto,
};
use crate::partition::{indexed, inhabited, splits};
use crate::shape::{gather, join, lemma_gather_union, lemma_gather_urgent, Rates, Shape};

verus! {

/// A planned batch: its members and what they ask for together.
pub struct Team {
    pub shape: Shape,
    pub members: Set<usize>,
}

pub open spec fn shapes(teams: Seq<Team>) -> Seq<Shape> {
    teams.map_values(|team: Team| team.shape)
}

pub open spec fn crews(teams: Seq<Team>) -> Seq<Set<usize>> {
    teams.map_values(|team: Team| team.members)
}

/// The batch made of these jobs.
pub open spec fn team_of(items: Map<usize, Shape>, members: Set<usize>) -> Team {
    Team { shape: gather(items, members), members }
}

/// The teams divide `whole` among them, and each knows what its members ask for.
pub open spec fn arranges(items: Map<usize, Shape>, teams: Seq<Team>, whole: Set<usize>) -> bool {
    &&& splits(crews(teams), whole)
    &&& forall|i: int|
        0 <= i < teams.len() ==> (#[trigger] teams[i]).shape == gather(items, teams[i].members)
}

/// Every team can still wait until `now`.
pub open spec fn on_time(rates: Rates, teams: Seq<Team>, now: u64) -> bool {
    forall|i: int| 0 <= i < teams.len() ==> rates.fits((#[trigger] teams[i]).shape, now)
}

/// Two teams run as one.
pub open spec fn merge(a: Team, b: Team) -> Team {
    Team { shape: join(a.shape, b.shape), members: a.members.union(b.members) }
}

// Grouping equal check sets.

/// The check sets that occur among `tokens`.
pub open spec fn kinds(items: Map<usize, Shape>, tokens: Set<usize>) -> Set<Set<usize>> {
    tokens.map(|t: usize| items[t].checks)
}

/// Those of `tokens` that ask for exactly `kind`.
pub open spec fn alike(items: Map<usize, Shape>, tokens: Set<usize>, kind: Set<usize>) -> Set<usize> {
    tokens.filter(|t: usize| items[t].checks == kind)
}

/// One team for each distinct check set, in numeral order of the check sets.
/// For the current queue, identical check sets can travel together for free.
pub open spec fn patterns(items: Map<usize, Shape>, tokens: Set<usize>) -> Seq<Team> {
    listing(
        kinds(items, tokens),
        |a: Set<usize>, b: Set<usize>| bits_lt(a, b),
    ).map_values(|kind: Set<usize>| team_of(items, alike(items, tokens, kind)))
}

/// What makes a sequence of teams the patterns of `tokens`.
pub open spec fn is_patterns(q: Seq<Team>, items: Map<usize, Shape>, tokens: Set<usize>) -> bool {
    &&& forall|i: int, j: int|
        0 <= i < j < q.len() ==> bits_lt(
            (#[trigger] q[i]).shape.checks,
            (#[trigger] q[j]).shape.checks,
        )
    &&& forall|i: int|
        0 <= i < q.len() ==> inhabited((#[trigger] q[i]).members) && q[i] == team_of(
            items,
            alike(items, tokens, q[i].shape.checks),
        )
    &&& forall|t: usize|
        tokens.contains(t) ==> exists|i: int|
            0 <= i < q.len() && (#[trigger] q[i]).shape.checks == items[t].checks
}

proof fn lemma_alike_checks(items: Map<usize, Shape>, tokens: Set<usize>, kind: Set<usize>)
    requires
        tokens.finite(),
        inhabited(alike(items, tokens, kind)),
    ensures
        gather(items, alike(items, tokens, kind)).checks == kind,
        exists|t: usize| #[trigger]
            tokens.contains(t) && items[t] == gather(items, alike(items, tokens, kind)),
{
    let block = alike(items, tokens, kind);
    assert(block.subset_of(tokens));
    vstd::set_lib::lemma_set_subset_finite(tokens, block);
    let t = choose|t: usize| #[trigger] block.contains(t);
    assert(block.contains(t));
    lemma_gather_urgent(items, block);
    assert forall|c: usize| gather(items, block).checks.contains(c) == kind.contains(c) by {
        if gather(items, block).checks.contains(c) {
            let u = choose|u: usize| #[trigger] block.contains(u) && items[u].checks.contains(c);
            assert(items[u].checks == kind);
        }
        if kind.contains(c) {
            assert(items[t].checks == kind);
            assert(block.contains(t) && items[t].checks.contains(c));
        }
    }
    assert(gather(items, block).checks =~= kind);
    let u = choose|u: usize| #[trigger]
        block.contains(u) && items[u].deadline == gather(items, block).deadline;
    assert(tokens.contains(u) && items[u].checks == kind);
}

pub proof fn lemma_patterns(items: Map<usize, Shape>, tokens: Set<usize>)
    requires
        tokens.finite(),
    ensures
        is_patterns(patterns(items, tokens), items, tokens),
{
    let lt = |a: Set<usize>, b: Set<usize>| bits_lt(a, b);
    let ks = kinds(items, tokens);
    let q = patterns(items, tokens);
    let l = listing(ks, lt);
    tokens.lemma_map_finite(|t: usize| items[t].checks);
    lemma_bits_orders(ks);
    lemma_listing(ks, lt);
    assert forall|i: int| 0 <= i < q.len() implies inhabited((#[trigger] q[i]).members)
        && q[i].shape.checks == l[i] by {
        assert(l.to_set().contains(l[i]));
        let t = choose|t: usize| tokens.contains(t) && l[i] == items[t].checks;
        assert(alike(items, tokens, l[i]).contains(t));
        assert(q[i] == team_of(items, alike(items, tokens, l[i])));
        lemma_alike_checks(items, tokens, l[i]);
    }
    assert forall|i: int, j: int| 0 <= i < j < q.len() implies bits_lt(
        (#[trigger] q[i]).shape.checks,
        (#[trigger] q[j]).shape.checks,
    ) by {
        assert(lt(l[i], l[j]));
    }
    assert forall|t: usize| tokens.contains(t) implies exists|i: int|
        0 <= i < q.len() && (#[trigger] q[i]).shape.checks == items[t].checks by {
        assert(ks.contains(items[t].checks));
        assert(l.to_set().contains(items[t].checks));
        let k = choose|k: int| 0 <= k < l.len() && l[k] == items[t].checks;
        assert(q[k].shape.checks == items[t].checks);
    }
}

pub proof fn lemma_patterns_unique(q: Seq<Team>, items: Map<usize, Shape>, tokens: Set<usize>)
    requires
        tokens.finite(),
        is_patterns(q, items, tokens),
    ensures
        q == patterns(items, tokens),
{
    let lt = |a: Set<usize>, b: Set<usize>| bits_lt(a, b);
    let ks = kinds(items, tokens);
    let l = q.map_values(|team: Team| team.shape.checks);
    tokens.lemma_map_finite(|t: usize| items[t].checks);
    lemma_bits_orders(ks);
    assert forall|k: Set<usize>| ks.contains(k) implies l.to_set().contains(k) by {
        let t = choose|t: usize| tokens.contains(t) && k == items[t].checks;
        let i = choose|i: int| 0 <= i < q.len() && (#[trigger] q[i]).shape.checks == items[t].checks;
        assert(l[i] == k);
    }
    assert forall|k: Set<usize>| l.to_set().contains(k) implies ks.contains(k) by {
        let i = choose|i: int| 0 <= i < l.len() && l[i] == k;
        assert(q[i].shape.checks == k);
        let t = choose|t: usize| #[trigger] q[i].members.contains(t);
        assert(tokens.contains(t) && items[t].checks == k);
    }
    assert(l.to_set() =~= ks);
    assert forall|i: int, j: int| 0 <= i < j < l.len() implies lt(
        #[trigger] l[i],
        #[trigger] l[j],
    ) by {
        assert(bits_lt(q[i].shape.checks, q[j].shape.checks));
    }
    lemma_listing_unique(l, ks, lt);
    assert forall|i: int| 0 <= i < q.len() implies q[i] == patterns(items, tokens)[i] by {
        assert(l[i] == q[i].shape.checks);
    }
    assert(q =~= patterns(items, tokens));
}

/// One of the tokens alone asks for exactly this.
pub open spec fn asked(items: Map<usize, Shape>, tokens: Set<usize>, shape: Shape) -> bool {
    exists|t: usize| #[trigger] tokens.contains(t) && items[t] == shape
}

/// No two patterns have the same checks.
pub proof fn lemma_patterns_distinct(items: Map<usize, Shape>, tokens: Set<usize>, i: int, j: int)
    requires
        tokens.finite(),
        0 <= i < patterns(items, tokens).len(),
        0 <= j < patterns(items, tokens).len(),
        patterns(items, tokens)[i].shape.checks == patterns(items, tokens)[j].shape.checks,
    ensures
        i == j,
{
    let q = patterns(items, tokens);
    lemma_patterns(items, tokens);
    lemma_bits_irreflexive(q[i].shape.checks);
    if i < j {
        assert(bits_lt(q[i].shape.checks, q[j].shape.checks));
    } else if j < i {
        assert(bits_lt(q[j].shape.checks, q[i].shape.checks));
    }
}

/// Each pattern is as demanding as one of its members alone.
pub proof fn lemma_patterns_asked(items: Map<usize, Shape>, tokens: Set<usize>, i: int)
    requires
        tokens.finite(),
        0 <= i < patterns(items, tokens).len(),
    ensures
        asked(items, tokens, patterns(items, tokens)[i].shape),
{
    let q = patterns(items, tokens);
    lemma_patterns(items, tokens);
    assert(inhabited(q[i].members));
    lemma_alike_checks(items, tokens, q[i].shape.checks);
}

/// The patterns divide the tokens.
pub proof fn lemma_patterns_arrange(items: Map<usize, Shape>, tokens: Set<usize>)
    requires
        tokens.finite(),
    ensures
        arranges(items, patterns(items, tokens), tokens),
        patterns(items, tokens).len() <= tokens.len(),
        inhabited(tokens) ==> patterns(items, tokens).len() > 0,
{
    let q = patterns(items, tokens);
    let parts = crews(q);
    lemma_patterns(items, tokens);
    assert forall|i: int| 0 <= i < q.len() implies (#[trigger] parts[i]) == alike(
        items,
        tokens,
        q[i].shape.checks,
    ) && q[i].shape == gather(items, q[i].members) by {
        assert(parts[i] == q[i].members);
    }
    assert forall|i: int| 0 <= i < parts.len() implies inhabited(#[trigger] parts[i]) by {
        assert(inhabited(q[i].members));
    }
    assert forall|t: usize| tokens.contains(t) implies exists|i: int|
        0 <= i < parts.len() && #[trigger] parts[i].contains(t) by {
        let i = choose|i: int|
            0 <= i < q.len() && (#[trigger] q[i]).shape.checks == items[t].checks;
        assert(alike(items, tokens, q[i].shape.checks).contains(t));
        assert(parts[i].contains(t));
    }
    assert forall|i: int, j: int, t: usize|
        0 <= i < parts.len() && 0 <= j < parts.len() && #[trigger] parts[i].contains(t)
            && #[trigger] parts[j].contains(t) implies i == j by {
        lemma_patterns_distinct(items, tokens, i, j);
    }
    assert(splits(parts, tokens));
    crate::partition::lemma_splits_len(parts, tokens);
    if inhabited(tokens) {
        let t = choose|t: usize| #[trigger] tokens.contains(t);
        let i = choose|i: int| 0 <= i < parts.len() && #[trigger] parts[i].contains(t);
    }
}

/// Patterns of jobs that can each run alone can each run alone.
pub proof fn lemma_patterns_on_time(
    rates: Rates,
    items: Map<usize, Shape>,
    tokens: Set<usize>,
    now: u64,
)
    requires
        tokens.finite(),
        forall|t: usize| #[trigger] tokens.contains(t) ==> rates.fits(items[t], now),
    ensures
        on_time(rates, patterns(items, tokens), now),
{
    let q = patterns(items, tokens);
    assert forall|i: int| 0 <= i < q.len() implies rates.fits((#[trigger] q[i]).shape, now) by {
        lemma_patterns_asked(items, tokens, i);
        let t = choose|t: usize| #[trigger] tokens.contains(t) && items[t] == q[i].shape;
        assert(tokens.contains(t));
    }
}

// Placing.

/// The order in which demands are placed: earliest latest start, then numeral order of
/// the checks, then position.
pub open spec fn sooner(rates: Rates, s: Seq<Shape>, a: usize, b: usize) -> bool {
    let x = s[a as int];
    let y = s[b as int];
    ||| rates.latest(x) < rates.latest(y)
    ||| rates.latest(x) == rates.latest(y) && bits_lt(x.checks, y.checks)
    ||| rates.latest(x) == rates.latest(y) && x.checks == y.checks && a < b
}

/// The positions of `s` in placing order.
pub open spec fn urgency(rates: Rates, s: Seq<Shape>) -> Seq<usize> {
    listing(upto(s.len()), |a: usize, b: usize| sooner(rates, s, a, b))
}

pub proof fn lemma_sooner_orders(rates: Rates, s: Seq<Shape>, whole: Set<usize>)
    ensures
        orders(|a: usize, b: usize| sooner(rates, s, a, b), whole),
{
    let lt = |a: usize, b: usize| sooner(rates, s, a, b);
    assert forall|x: usize| whole.contains(x) implies !#[trigger] lt(x, x) by {
        lemma_bits_irreflexive(s[x as int].checks);
    }
    assert forall|x: usize, y: usize|
        whole.contains(x) && whole.contains(y) && x != y implies #[trigger] lt(x, y) || lt(
        y,
        x,
    ) by {
        if s[x as int].checks != s[y as int].checks {
            lemma_bits_total(s[x as int].checks, s[y as int].checks);
        }
    }
    assert forall|x: usize, y: usize, z: usize|
        whole.contains(x) && whole.contains(y) && whole.contains(z) && #[trigger] lt(x, y)
            && #[trigger] lt(y, z) implies lt(x, z) by {
        if bits_lt(s[x as int].checks, s[y as int].checks) && bits_lt(
            s[y as int].checks,
            s[z as int].checks,
        ) {
            lemma_bits_transitive(s[x as int].checks, s[y as int].checks, s[z as int].checks);
        }
    }
}

/// The seconds that a batch grows by when it takes in `job`.
pub open spec fn extra(rates: Rates, base: Shape, job: Shape) -> int {
    rates.duration(join(base, job).checks) - rates.duration(base.checks)
}

/// Where `job` would rather go: cheapest, then most urgent, then numeral order of the
/// checks, then position.
pub open spec fn closer(rates: Rates, s: Seq<Shape>, job: Shape, a: usize, b: usize) -> bool {
    let x = s[a as int];
    let y = s[b as int];
    ||| extra(rates, x, job) < extra(rates, y, job)
    ||| extra(rates, x, job) == extra(rates, y, job) && sooner(rates, s, a, b)
}

/// The batches that could take in `job` and still wait until `now`.
pub open spec fn hosts(rates: Rates, now: u64, s: Seq<Shape>, job: Shape) -> Set<usize> {
    Set::new(|i: usize| i < s.len() && rates.fits(join(s[i as int], job), now))
}

/// The batch that takes in `job`, if any can.
pub open spec fn best_fit(rates: Rates, now: u64, s: Seq<Shape>, job: Shape) -> Option<usize> {
    if inhabited(hosts(rates, now, s, job)) {
        Some(
            first(hosts(rates, now, s, job), |a: usize, b: usize| closer(rates, s, job, a, b)),
        )
    } else {
        None
    }
}

/// The plan with `job` in its best place, or on a machine of its own.
pub open spec fn placed(rates: Rates, now: u64, teams: Seq<Team>, job: Team) -> Seq<Team> {
    match best_fit(rates, now, shapes(teams), job.shape) {
        Some(i) => teams.update(i as int, merge(teams[i as int], job)),
        None => teams.push(job),
    }
}

/// The plan after placing the first `k` of `incoming` in the given order.
pub open spec fn placed_upto(
    rates: Rates,
    now: u64,
    teams: Seq<Team>,
    incoming: Seq<Team>,
    order: Seq<usize>,
    k: nat,
) -> Seq<Team>
    decreases k,
{
    if k == 0 {
        teams
    } else {
        placed(
            rates,
            now,
            placed_upto(rates, now, teams, incoming, order, (k - 1) as nat),
            incoming[order[k - 1] as int],
        )
    }
}

/// The plan after placing every incoming team.
pub open spec fn inserted(rates: Rates, now: u64, teams: Seq<Team>, incoming: Seq<Team>) -> Seq<
    Team,
> {
    placed_upto(
        rates,
        now,
        teams,
        incoming,
        urgency(rates, shapes(incoming)),
        incoming.len(),
    )
}

pub proof fn lemma_closer_orders(rates: Rates, s: Seq<Shape>, job: Shape, whole: Set<usize>)
    ensures
        orders(|a: usize, b: usize| closer(rates, s, job, a, b), whole),
{
    let lt = |a: usize, b: usize| closer(rates, s, job, a, b);
    let inner = |a: usize, b: usize| sooner(rates, s, a, b);
    lemma_sooner_orders(rates, s, whole);
    assert forall|x: usize| whole.contains(x) implies !#[trigger] lt(x, x) by {
        assert(!inner(x, x));
    }
    assert forall|x: usize, y: usize|
        whole.contains(x) && whole.contains(y) && x != y implies #[trigger] lt(x, y) || lt(
        y,
        x,
    ) by {
        assert(inner(x, y) || inner(y, x));
    }
    assert forall|x: usize, y: usize, z: usize|
        whole.contains(x) && whole.contains(y) && whole.contains(z) && #[trigger] lt(x, y)
            && #[trigger] lt(y, z) implies lt(x, z) by {
        if inner(x, y) && inner(y, z) {
            assert(inner(x, z));
        }
    }
}

/// `i` is where `job` goes if it is the closest host.
pub proof fn lemma_best_fit_is(rates: Rates, now: u64, s: Seq<Shape>, job: Shape, i: usize)
    requires
        hosts(rates, now, s, job).contains(i),
        forall|j: usize|
            hosts(rates, now, s, job).contains(j) && j != i ==> #[trigger] closer(
                rates,
                s,
                job,
                i,
                j,
            ),
    ensures
        best_fit(rates, now, s, job) == Some(i),
{
    let lt = |a: usize, b: usize| closer(rates, s, job, a, b);
    let h = hosts(rates, now, s, job);
    assert(inhabited(h));
    assert forall|x: usize| h.contains(x) && x != i implies #[trigger] lt(i, x) by {
        assert(closer(rates, s, job, i, x));
    }
    assert(is_first(h, lt, i));
    lemma_closer_orders(rates, s, job, h);
    let m = first(h, lt);
    assert(is_first(h, lt, m));
    if m != i {
        assert(lt(m, i) && lt(i, m));
        assert(lt(m, m));
    }
}

pub proof fn lemma_best_fit(rates: Rates, now: u64, s: Seq<Shape>, job: Shape)
    requires
        s.len() <= usize::MAX,
    ensures
        best_fit(rates, now, s, job) matches Some(i) ==> hosts(rates, now, s, job).contains(i),
        best_fit(rates, now, s, job) is None ==> !inhabited(hosts(rates, now, s, job)),
{
    let lt = |a: usize, b: usize| closer(rates, s, job, a, b);
    let h = hosts(rates, now, s, job);
    if inhabited(h) {
        lemma_upto(s.len());
        assert(h.subset_of(upto(s.len())));
        vstd::set_lib::lemma_set_subset_finite(upto(s.len()), h);
        lemma_closer_orders(rates, s, job, h);
        let t = choose|t: usize| #[trigger] h.contains(t);
        assert(h.contains(t));
        lemma_first_exists(h, lt);
    }
}

/// Placing keeps the plan a division of all jobs, with nobody late.
pub proof fn lemma_placed(
    rates: Rates,
    now: u64,
    items: Map<usize, Shape>,
    teams: Seq<Team>,
    whole: Set<usize>,
    job: Team,
)
    requires
        arranges(items, teams, whole),
        whole.finite(),
        on_time(rates, teams, now),
        teams.len() <= usize::MAX,
        job.shape == gather(items, job.members),
        job.members.finite(),
        inhabited(job.members),
        rates.fits(job.shape, now),
        whole.disjoint(job.members),
    ensures
        arranges(items, placed(rates, now, teams, job), whole.union(job.members)),
        on_time(rates, placed(rates, now, teams, job), now),
        placed(rates, now, teams, job).len() <= teams.len() + 1,
{
    let parts = crews(teams);
    let next = placed(rates, now, teams, job);
    let after = crews(next);
    let all = whole.union(job.members);
    lemma_best_fit(rates, now, shapes(teams), job.shape);
    crate::partition::lemma_splits_finite(parts, whole);
    match best_fit(rates, now, shapes(teams), job.shape) {
        Some(h) => {
            let i = h as int;
            assert(shapes(teams)[i] == teams[i].shape);
            assert(parts[i] == teams[i].members);
            lemma_gather_union(items, teams[i].members, job.members);
            assert(after =~= parts.update(i, parts[i].union(job.members)));
            assert forall|j: int| 0 <= j < after.len() implies inhabited(#[trigger] after[j]) by {
                assert(inhabited(parts[j]));
                let t = choose|t: usize| #[trigger] parts[j].contains(t);
                assert(after[j].contains(t));
            }
            assert forall|t: usize| all.contains(t) implies exists|j: int|
                0 <= j < after.len() && #[trigger] after[j].contains(t) by {
                if whole.contains(t) {
                    let j = choose|j: int| 0 <= j < parts.len() && #[trigger] parts[j].contains(t);
                    assert(after[j].contains(t));
                } else {
                    assert(after[i].contains(t));
                }
            }
            assert forall|j: int, k: int, t: usize|
                0 <= j < after.len() && 0 <= k < after.len() && #[trigger] after[j].contains(t)
                    && #[trigger] after[k].contains(t) implies j == k by {
                if job.members.contains(t) {
                    assert(!whole.contains(t));
                    assert(!parts[j].contains(t) && !parts[k].contains(t));
                } else {
                    assert(parts[j].contains(t) && parts[k].contains(t));
                }
            }
            assert forall|j: int, t: usize|
                0 <= j < after.len() && #[trigger] after[j].contains(t) implies all.contains(t) by {
                if !job.members.contains(t) {
                    assert(parts[j].contains(t));
                }
            }
            assert(splits(after, all));
        },
        None => {
            assert(after =~= parts.push(job.members));
            let n = parts.len() as int;
            assert forall|j: int| 0 <= j < after.len() implies inhabited(#[trigger] after[j]) by {
                if j < n {
                    assert(inhabited(parts[j]));
                }
            }
            assert forall|t: usize| all.contains(t) implies exists|j: int|
                0 <= j < after.len() && #[trigger] after[j].contains(t) by {
                if whole.contains(t) {
                    let j = choose|j: int| 0 <= j < parts.len() && #[trigger] parts[j].contains(t);
                    assert(after[j].contains(t));
                } else {
                    assert(after[n].contains(t));
                }
            }
            assert forall|j: int, k: int, t: usize|
                0 <= j < after.len() && 0 <= k < after.len() && #[trigger] after[j].contains(t)
                    && #[trigger] after[k].contains(t) implies j == k by {
                if j < n {
                    assert(parts[j].contains(t));
                }
                if k < n {
                    assert(parts[k].contains(t));
                }
            }
            assert forall|j: int, t: usize|
                0 <= j < after.len() && #[trigger] after[j].contains(t) implies all.contains(t) by {
                if j < n {
                    assert(parts[j].contains(t));
                }
            }
            assert(splits(after, all));
        },
    }
}

/// Those of the first `k` in the order.
pub open spec fn covered_upto(incoming: Seq<Team>, order: Seq<usize>, k: nat) -> Set<usize>
    decreases k,
{
    if k == 0 {
        Set::empty()
    } else {
        covered_upto(incoming, order, (k - 1) as nat).union(incoming[order[k - 1] as int].members)
    }
}

pub proof fn lemma_covered_upto(incoming: Seq<Team>, order: Seq<usize>, k: nat, t: usize)
    requires
        k <= order.len(),
    ensures
        covered_upto(incoming, order, k).contains(t) <==> exists|j: int|
            0 <= j < k && incoming[(#[trigger] order[j]) as int].members.contains(t),
    decreases k,
{
    if k > 0 {
        lemma_covered_upto(incoming, order, (k - 1) as nat, t);
        if incoming[order[k - 1] as int].members.contains(t) {
            assert(0 <= k - 1 < k);
        }
        if exists|j: int| 0 <= j < k && incoming[(#[trigger] order[j]) as int].members.contains(t) {
            let j = choose|j: int|
                0 <= j < k && incoming[(#[trigger] order[j]) as int].members.contains(t);
            if j < k - 1 {
                assert(incoming[order[j] as int].members.contains(t));
            }
        }
    }
}

pub proof fn lemma_placed_upto(
    rates: Rates,
    now: u64,
    items: Map<usize, Shape>,
    teams: Seq<Team>,
    whole: Set<usize>,
    incoming: Seq<Team>,
    extra_whole: Set<usize>,
    order: Seq<usize>,
    k: nat,
)
    requires
        arranges(items, teams, whole),
        arranges(items, incoming, extra_whole),
        whole.finite(),
        extra_whole.finite(),
        whole.disjoint(extra_whole),
        on_time(rates, teams, now),
        on_time(rates, incoming, now),
        teams.len() + incoming.len() <= usize::MAX,
        order.no_duplicates(),
        order.len() == incoming.len(),
        forall|i: int| 0 <= i < order.len() ==> (#[trigger] order[i]) < incoming.len(),
        k <= order.len(),
    ensures
        arranges(
            items,
            placed_upto(rates, now, teams, incoming, order, k),
            whole.union(covered_upto(incoming, order, k)),
        ),
        on_time(rates, placed_upto(rates, now, teams, incoming, order, k), now),
        placed_upto(rates, now, teams, incoming, order, k).len() <= teams.len() + k,
        covered_upto(incoming, order, k).subset_of(extra_whole),
    decreases k,
{
    let covered = covered_upto(incoming, order, k);
    if k == 0 {
        assert(whole.union(covered) =~= whole);
    } else {
        let before = covered_upto(incoming, order, (k - 1) as nat);
        lemma_placed_upto(
            rates,
            now,
            items,
            teams,
            whole,
            incoming,
            extra_whole,
            order,
            (k - 1) as nat,
        );
        let job = incoming[order[k - 1] as int];
        assert(crews(incoming)[order[k - 1] as int] == job.members);
        crate::partition::lemma_splits_finite(crews(incoming), extra_whole);
        assert(job.members.subset_of(extra_whole)) by {
            assert forall|t: usize| job.members.contains(t) implies extra_whole.contains(t) by {
                assert(crews(incoming)[order[k - 1] as int].contains(t));
            }
        }
        vstd::set_lib::lemma_set_subset_finite(extra_whole, before);
        assert(inhabited(crews(incoming)[order[k - 1] as int]));
        assert(whole.union(before).disjoint(job.members)) by {
            assert forall|t: usize| whole.union(before).contains(t) implies !job.members.contains(
                t,
            ) by {
                if before.contains(t) && job.members.contains(t) {
                    lemma_covered_upto(incoming, order, (k - 1) as nat, t);
                    let j = choose|j: int|
                        0 <= j < k - 1 && incoming[(#[trigger] order[j]) as int].members.contains(
                            t,
                        );
                    assert(crews(incoming)[order[j] as int].contains(t));
                    assert(crews(incoming)[order[k - 1] as int].contains(t));
                    assert(order[j] == order[k - 1]);
                }
            }
        }
        lemma_placed(
            rates,
            now,
            items,
            placed_upto(rates, now, teams, incoming, order, (k - 1) as nat),
            whole.union(before),
            job,
        );
        assert(whole.union(before).union(job.members) =~= whole.union(covered));
    }
}

/// The placing order visits each position once.
pub proof fn lemma_urgency(rates: Rates, s: Seq<Shape>)
    requires
        s.len() <= usize::MAX,
    ensures
        urgency(rates, s).len() == s.len(),
        urgency(rates, s).no_duplicates(),
        urgency(rates, s).to_set() == upto(s.len()),
        forall|i: int| 0 <= i < s.len() ==> (#[trigger] urgency(rates, s)[i]) < s.len(),
{
    let lt = |a: usize, b: usize| sooner(rates, s, a, b);
    lemma_upto(s.len());
    lemma_sooner_orders(rates, s, upto(s.len()));
    lemma_listing(upto(s.len()), lt);
    let q = urgency(rates, s);
    assert forall|i: int| 0 <= i < s.len() implies (#[trigger] q[i]) < s.len() by {
        assert(q.to_set().contains(q[i]));
    }
}

/// Placing everything keeps the plan a division of all jobs, with nobody late.
pub proof fn lemma_inserted(
    rates: Rates,
    now: u64,
    items: Map<usize, Shape>,
    teams: Seq<Team>,
    whole: Set<usize>,
    incoming: Seq<Team>,
    extra_whole: Set<usize>,
)
    requires
        arranges(items, teams, whole),
        arranges(items, incoming, extra_whole),
        whole.finite(),
        extra_whole.finite(),
        whole.disjoint(extra_whole),
        on_time(rates, teams, now),
        on_time(rates, incoming, now),
        teams.len() + incoming.len() <= usize::MAX,
    ensures
        arranges(items, inserted(rates, now, teams, incoming), whole.union(extra_whole)),
        on_time(rates, inserted(rates, now, teams, incoming), now),
        inserted(rates, now, teams, incoming).len() <= teams.len() + incoming.len(),
{
    let order = urgency(rates, shapes(incoming));
    let n = incoming.len();
    lemma_urgency(rates, shapes(incoming));
    lemma_placed_upto(rates, now, items, teams, whole, incoming, extra_whole, order, n);
    let covered = covered_upto(incoming, order, n);
    assert forall|t: usize| extra_whole.contains(t) implies covered.contains(t) by {
        let i = choose|i: int|
            0 <= i < crews(incoming).len() && #[trigger] crews(incoming)[i].contains(t);
        assert(upto(n).contains(i as usize));
        assert(order.to_set().contains(i as usize));
        let j = choose|j: int| 0 <= j < order.len() && order[j] == i as usize;
        lemma_covered_upto(incoming, order, n, t);
        assert(incoming[order[j] as int].members.contains(t));
    }
    assert(covered =~= extra_whole);
}

// Batches made of patterns.

/// The members of the patterns in `block`.
pub open spec fn crew_of(all: Seq<Team>, block: Set<usize>) -> Set<usize> {
    Set::new(
        |t: usize|
            exists|i: usize| #[trigger]
                block.contains(i) && i < all.len() && all[i as int].members.contains(t),
    )
}

/// The batch made of the patterns in `block`.
pub open spec fn bundle(all: Seq<Team>, block: Set<usize>) -> Team {
    Team { shape: gather(indexed(shapes(all)), block), members: crew_of(all, block) }
}

/// One batch for each block of patterns.
pub open spec fn bundles(all: Seq<Team>, parts: Seq<Set<usize>>) -> Seq<Team> {
    parts.map_values(|part: Set<usize>| bundle(all, part))
}

pub proof fn lemma_crew_insert(all: Seq<Team>, block: Set<usize>, i: usize)
    requires
        i < all.len(),
    ensures
        crew_of(all, block.insert(i)) == crew_of(all, block).union(all[i as int].members),
{
    let more = block.insert(i);
    assert forall|t: usize| crew_of(all, more).contains(t) <==> crew_of(all, block).union(
        all[i as int].members,
    ).contains(t) by {
        if crew_of(all, more).contains(t) {
            let j = choose|j: usize| #[trigger]
                more.contains(j) && j < all.len() && all[j as int].members.contains(t);
            if j != i {
                assert(block.contains(j));
            }
        }
        if crew_of(all, block).contains(t) {
            let j = choose|j: usize| #[trigger]
                block.contains(j) && j < all.len() && all[j as int].members.contains(t);
            assert(more.contains(j));
        }
        if all[i as int].members.contains(t) {
            assert(more.contains(i));
        }
    }
    assert(crew_of(all, more) =~= crew_of(all, block).union(all[i as int].members));
}

pub proof fn lemma_crew_empty(all: Seq<Team>)
    ensures
        crew_of(all, Set::empty()) == Set::<usize>::empty(),
{
    assert(crew_of(all, Set::empty()) =~= Set::<usize>::empty());
}

} // verus!
