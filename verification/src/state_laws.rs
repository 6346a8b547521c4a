//! Every job is launched once, with jobs of its own repository, after it arrives and in
//! time for its deadline.
use vstd::prelude::*;

use crate::lane::{fired, Repo, Rules};
use crate::lane_laws::{lemma_fired, lemma_planned, steady, timely};
use crate::listing::{is_first, lemma_first_exists, lemma_listing, listing, orders};
use crate::names::{
    lemma_name_irreflexive, lemma_name_orders, lemma_name_total, lemma_name_transitive, name_lt,
};
use crate::partition::inhabited;
use crate::plan::{kept, ready};
use crate::shape::{lemma_gather_agree, Rates, Shape};
use crate::state::{filed, news, touched, Ask, State};
use crate::team::{crews, team_of, Team};

verus! {

/// What each job asks for.
pub open spec fn wishes(all: Map<usize, Ask>) -> Map<usize, Shape> {
    all.map_values(|ask: Ask| ask.shape)
}

/// Every job can finish on its own when launched on arrival.
pub open spec fn acceptable(rates: Rates, all: Map<usize, Ask>) -> bool {
    &&& all.dom().finite()
    &&& all.dom().len() <= usize::MAX
    &&& forall|t: usize| #[trigger] all.contains_key(t) ==> rates.fits(all[t].shape, all[t].at)
}

/// The jobs that wait here belong here, and ask for what they asked for.
pub open spec fn belong(all: Map<usize, Ask>, name: Seq<char>, repo: Repo) -> bool {
    forall|t: usize| #[trigger]
        repo.items.contains_key(t) ==> all.contains_key(t) && all[t].repo == name
            && repo.items[t] == all[t].shape
}

/// Every repository is steady, and holds only jobs of its own.
pub open spec fn sane(rules: Rules, all: Map<usize, Ask>, s: State) -> bool {
    &&& s.repos.dom().finite()
    &&& forall|name: Seq<char>| #[trigger]
        s.repos.contains_key(name) ==> steady(rules.rates, s.repos[name]) && belong(
            all,
            name,
            s.repos[name],
        )
}

/// No timer rings before `clock`.
pub open spec fn quiet(s: State, clock: u64) -> bool {
    forall|name: Seq<char>| #[trigger]
        s.repos.contains_key(name) && s.repos[name].wake is Some ==> clock <= s.repos[name].wake->0
}

pub proof fn lemma_rings_orders(s: State, whole: Set<Seq<char>>)
    ensures
        orders(|a: Seq<char>, b: Seq<char>| s.rings(a, b), whole),
{
    let lt = |a: Seq<char>, b: Seq<char>| s.rings(a, b);
    assert forall|x: Seq<char>| whole.contains(x) implies !#[trigger] lt(x, x) by {
        lemma_name_irreflexive(x);
    }
    assert forall|x: Seq<char>, y: Seq<char>|
        whole.contains(x) && whole.contains(y) && x != y implies #[trigger] lt(x, y) || lt(
        y,
        x,
    ) by {
        lemma_name_total(x, y);
    }
    assert forall|x: Seq<char>, y: Seq<char>, z: Seq<char>|
        whole.contains(x) && whole.contains(y) && whole.contains(z) && #[trigger] lt(x, y)
            && #[trigger] lt(y, z) implies lt(x, z) by {
        if name_lt(x, y) && name_lt(y, z) {
            lemma_name_transitive(x, y, z);
        }
    }
}

/// The first timer is a timer, and no other rings before it.
pub proof fn lemma_next(s: State)
    requires
        s.repos.dom().finite(),
    ensures
        s.idle() ==> s.next_wake() is None,
        !s.idle() ==> s.awake().contains(s.next()) && s.next_wake() == s.repos[s.next()].wake
            && s.next_wake() is Some,
        !s.idle() ==> forall|name: Seq<char>| #[trigger]
            s.awake().contains(name) ==> s.repos[s.next()].wake->0 <= s.repos[name].wake->0,
        !s.idle() ==> forall|name: Seq<char>| #[trigger]
            s.awake().contains(name) && name != s.next() ==> s.rings(s.next(), name),
{
    if !s.idle() {
        let a = s.awake();
        let lt = |a: Seq<char>, b: Seq<char>| s.rings(a, b);
        assert(a.subset_of(s.repos.dom()));
        vstd::set_lib::lemma_set_subset_finite(s.repos.dom(), a);
        let n = choose|n: Seq<char>| #[trigger] s.awake().contains(n);
        assert(a.contains(n));
        lemma_rings_orders(s, a);
        lemma_first_exists(a, lt);
        let m = s.next();
        assert(is_first(a, lt, m));
        assert forall|name: Seq<char>| #[trigger]
            s.awake().contains(name) && name != m implies s.rings(m, name) by {
            assert(lt(m, name));
        }
        assert forall|name: Seq<char>| #[trigger] s.awake().contains(name) implies s.repos[m].wake->0
            <= s.repos[name].wake->0 by {
            if name != m {
                assert(lt(m, name));
            }
        }
    }
}

/// No timer rings before the limit exactly if it is quiet until then.
pub proof fn lemma_quiet(s: State, clock: u64)
    requires
        s.repos.dom().finite(),
    ensures
        quiet(s, clock) <==> !s.rung(clock, false),
{
    lemma_next(s);
    if quiet(s, clock) {
        if !s.idle() {
            assert(s.repos.contains_key(s.next()));
        }
    }
    if !s.rung(clock, false) {
        assert forall|name: Seq<char>| #[trigger]
            s.repos.contains_key(name) && s.repos[name].wake is Some implies clock
            <= s.repos[name].wake->0 by {
            assert(s.awake().contains(name));
        }
    }
}

/// One ring launches something, in the repository whose timer rings, now.
pub proof fn lemma_ring(rules: Rules, all: Map<usize, Ask>, s: State)
    requires
        sane(rules, all, s),
        !s.idle(),
    ensures
        sane(rules, all, rules.ring(s)),
        s.repos.contains_key(s.next()),
        steady(rules.rates, s.repos[s.next()]),
        belong(all, s.next(), s.repos[s.next()]),
        s.next_wake() == s.repos[s.next()].wake,
        quiet(s, s.next_wake()->0),
        quiet(rules.ring(s), s.next_wake()->0),
        rules.ring(s).launches == s.launches + fired(
            rules.rates,
            s.next_wake()->0,
            s.repos[s.next()],
        ).1,
        rules.ring(s).repos == match rules.after_fire(s.next_wake()->0, s.repos[s.next()]) {
            Some(repo) => s.repos.insert(s.next(), repo),
            None => s.repos.remove(s.next()),
        },
{
    let name = s.next();
    let repo = s.repos[name];
    let now = s.next_wake()->0;
    lemma_next(s);
    assert(s.repos.contains_key(name));
    lemma_fired(rules, repo);
    let (left, launches) = fired(rules.rates, now, repo);
    let parked = Repo { items: left, plan: repo.plan, wake: None };
    let mid = s.repos.insert(name, parked);
    let after = rules.ring(s);
    assert(mid[name] == parked);
    match rules.planned(now, parked) {
        Some(next) => {
            assert(mid.insert(name, next) =~= s.repos.insert(name, next));
        },
        None => {
            assert(mid.remove(name) =~= s.repos.remove(name));
        },
    }
    assert forall|n: Seq<char>| #[trigger]
        s.repos.contains_key(n) && s.repos[n].wake is Some implies now <= s.repos[n].wake->0 by {
        assert(s.awake().contains(n));
    }
    assert forall|n: Seq<char>| #[trigger] after.repos.contains_key(n) implies steady(
        rules.rates,
        after.repos[n],
    ) && belong(all, n, after.repos[n]) && now <= after.repos[n].wake->0 by {
        if n == name {
            assert forall|t: usize| #[trigger]
                after.repos[n].items.contains_key(t) implies all.contains_key(t) && all[t].repo == n
                && after.repos[n].items[t] == all[t].shape by {
                assert(left.contains_key(t));
                assert(repo.items.contains_key(t));
            }
        } else {
            assert(s.repos.contains_key(n));
        }
    }
}

/// The jobs that wait after a ring are those that waited and were not launched.
pub proof fn lemma_ring_waiting(rules: Rules, all: Map<usize, Ask>, s: State)
    requires
        sane(rules, all, s),
        !s.idle(),
    ensures
        forall|t: usize| #[trigger]
            rules.ring(s).waiting().contains(t) <==> s.waiting().contains(t) && !(
            s.repos[s.next()].items.contains_key(t) && !fired(
                rules.rates,
                s.next_wake()->0,
                s.repos[s.next()],
            ).0.contains_key(t)),
        forall|t: usize|
            s.repos[s.next()].items.contains_key(t) ==> #[trigger] s.waiting().contains(t),
{
    let name = s.next();
    let now = s.next_wake()->0;
    let repo = s.repos[name];
    let after = rules.ring(s);
    lemma_ring(rules, all, s);
    lemma_fired(rules, repo);
    let left = fired(rules.rates, now, repo).0;
    assert forall|t: usize| repo.items.contains_key(t) implies #[trigger] s.waiting().contains(
        t,
    ) by {
        assert(s.repos.contains_key(name) && s.repos[name].items.contains_key(t));
    }
    assert forall|t: usize| #[trigger] after.waiting().contains(t) <==> s.waiting().contains(t)
        && !(repo.items.contains_key(t) && !left.contains_key(t)) by {
        if after.waiting().contains(t) {
            let n = choose|n: Seq<char>| #[trigger]
                after.repos.contains_key(n) && after.repos[n].items.contains_key(t);
            if n == name {
                assert(left.contains_key(t));
                assert(repo.items.contains_key(t));
            } else {
                assert(s.repos.contains_key(n) && s.repos[n].items.contains_key(t));
                if repo.items.contains_key(t) {
                    assert(all[t].repo == name && all[t].repo == n);
                }
            }
        }
        if s.waiting().contains(t) && !(repo.items.contains_key(t) && !left.contains_key(t)) {
            let n = choose|n: Seq<char>| #[trigger]
                s.repos.contains_key(n) && s.repos[n].items.contains_key(t);
            if n == name {
                assert(left.contains_key(t));
                assert(inhabited(left.dom())) by {
                    assert(left.dom().contains(t));
                }
                assert(after.repos.contains_key(name));
            } else {
                assert(after.repos.contains_key(n) && after.repos[n].items.contains_key(t));
            }
        }
    }
}

/// The jobs that wait are finitely many, and a ring leaves fewer of them.
pub proof fn lemma_progress(rules: Rules, all: Map<usize, Ask>, s: State)
    requires
        sane(rules, all, s),
        all.dom().finite(),
        !s.idle(),
    ensures
        rules.ring(s).waiting().len() < s.waiting().len(),
        s.waiting().finite(),
{
    let name = s.next();
    let now = s.next_wake()->0;
    let repo = s.repos[name];
    let after = rules.ring(s);
    lemma_ring(rules, all, s);
    lemma_ring_waiting(rules, all, s);
    lemma_fired(rules, repo);
    let (left, launches) = fired(rules.rates, now, repo);
    assert(timely(rules.rates, repo.items, launches[0]));
    let t = choose|t: usize| #[trigger] launches[0].jobs.contains(t);
    assert(repo.items.contains_key(t) && !left.contains_key(t));
    assert(s.waiting().contains(t));
    lemma_waiting_finite(rules, all, s);
    assert(after.waiting().subset_of(s.waiting().remove(t))) by {
        assert forall|u: usize| after.waiting().contains(u) implies s.waiting().remove(
            t,
        ).contains(u) by {}
    }
    vstd::set_lib::lemma_len_subset(after.waiting(), s.waiting().remove(t));
}

pub proof fn lemma_waiting_finite(rules: Rules, all: Map<usize, Ask>, s: State)
    requires
        sane(rules, all, s),
        all.dom().finite(),
    ensures
        s.waiting().finite(),
        s.waiting().subset_of(all.dom()),
{
    assert forall|t: usize| s.waiting().contains(t) implies all.dom().contains(t) by {
        let n = choose|n: Seq<char>| #[trigger]
            s.repos.contains_key(n) && s.repos[n].items.contains_key(t);
        assert(belong(all, n, s.repos[n]));
    }
    vstd::set_lib::lemma_set_subset_finite(all.dom(), s.waiting());
}

/// Advancing in two steps is advancing at once.
pub proof fn lemma_advance_twice(
    rules: Rules,
    s: State,
    limit: u64,
    inclusive: bool,
    limit2: u64,
    inclusive2: bool,
)
    requires
        limit < limit2 || limit == limit2 && (inclusive ==> inclusive2),
    ensures
        rules.advance(rules.advance(s, limit, inclusive), limit2, inclusive2) == rules.advance(
            s,
            limit2,
            inclusive2,
        ),
    decreases s.waiting().len(),
{
    if s.rung(limit, inclusive) && rules.ring(s).waiting().len() < s.waiting().len() {
        lemma_advance_twice(rules, rules.ring(s), limit, inclusive, limit2, inclusive2);
    }
}

/// Advancing keeps everything sane, and rings every timer up to the limit.
pub proof fn lemma_advance(
    rules: Rules,
    all: Map<usize, Ask>,
    s: State,
    limit: u64,
    inclusive: bool,
)
    requires
        sane(rules, all, s),
        all.dom().finite(),
    ensures
        sane(rules, all, rules.advance(s, limit, inclusive)),
        !rules.advance(s, limit, inclusive).rung(limit, inclusive),
        quiet(rules.advance(s, limit, inclusive), limit),
    decreases s.waiting().len(),
{
    lemma_next(s);
    if s.rung(limit, inclusive) {
        lemma_progress(rules, all, s);
        lemma_ring(rules, all, s);
        lemma_advance(rules, all, rules.ring(s), limit, inclusive);
    } else {
        lemma_quiet(s, limit);
    }
}

// Arrivals.

/// Planning listed repositories anew changes just those.
pub proof fn lemma_replans(rules: Rules, s: State, names: Seq<Seq<char>>, k: nat, now: u64)
    requires
        k <= names.len(),
        names.no_duplicates(),
        forall|i: int|
            0 <= i < names.len() ==> s.repos.contains_key(#[trigger] names[i]) && inhabited(
                s.repos[names[i]].items.dom(),
            ),
    ensures
        rules.replans(s, names, k, now).repos.dom() == s.repos.dom(),
        rules.replans(s, names, k, now).launches == s.launches,
        forall|i: int|
            0 <= i < k ==> rules.replans(s, names, k, now).repos[#[trigger] names[i]]
                == rules.planned(now, s.repos[names[i]])->0,
        forall|n: Seq<char>| #[trigger]
            s.repos.contains_key(n) && (forall|i: int| 0 <= i < k ==> names[i] != n)
                ==> rules.replans(s, names, k, now).repos[n] == s.repos[n],
    decreases k,
{
    if k > 0 {
        let name = names[k - 1];
        let before = rules.replans(s, names, (k - 1) as nat, now);
        let after = rules.replans(s, names, k, now);
        lemma_replans(rules, s, names, (k - 1) as nat, now);
        assert(s.repos.contains_key(names[k - 1]));
        assert(before.repos[name] == s.repos[name]);
        assert(after.repos.dom() =~= s.repos.dom());
        assert forall|i: int| 0 <= i < k implies after.repos[#[trigger] names[i]] == rules.planned(
            now,
            s.repos[names[i]],
        )->0 by {
            if i < k - 1 {
                assert(names[i] != names[k - 1]);
            }
        }
        assert forall|n: Seq<char>| #[trigger]
            s.repos.contains_key(n) && (forall|i: int|
            0 <= i < k ==> names[i] != n) implies after.repos[n] == s.repos[n] by {
            assert(names[k - 1] != n);
        }
    }
}

/// The names of the arrivals' repositories, each once, in order.
pub proof fn lemma_touched(batch: Map<usize, Ask>)
    requires
        batch.dom().finite(),
    ensures
        touched(batch).finite(),
        ({
            let names = listing(touched(batch), |a: Seq<char>, b: Seq<char>| name_lt(a, b));
            &&& names.no_duplicates()
            &&& names.to_set() == touched(batch)
        }),
{
    let t = touched(batch);
    let image = batch.dom().map(|t: usize| batch[t].repo);
    batch.dom().lemma_map_finite(|t: usize| batch[t].repo);
    assert forall|n: Seq<char>| t.contains(n) implies image.contains(n) by {
        let x = choose|x: usize| #[trigger] batch.contains_key(x) && batch[x].repo == n;
        assert(batch.dom().contains(x));
    }
    assert(t.subset_of(image));
    vstd::set_lib::lemma_set_subset_finite(image, t);
    lemma_name_orders(t);
    lemma_listing(t, |a: Seq<char>, b: Seq<char>| name_lt(a, b));
}

/// A plan can be carried on when jobs arrive that can run alone.
pub proof fn lemma_grown_ready(
    rates: Rates,
    now: u64,
    items: Map<usize, Shape>,
    plan: Seq<Team>,
    more: Map<usize, Shape>,
)
    requires
        crate::lane_laws::sound_plan(rates, now, items, plan),
        more.dom().finite(),
        more.dom().len() <= usize::MAX,
        forall|t: usize| #[trigger]
            items.contains_key(t) ==> more.contains_key(t) && more[t] == items[t],
        forall|t: usize| #[trigger]
            more.contains_key(t) && !items.contains_key(t) ==> rates.fits(more[t], now),
    ensures
        ready(rates, now, more, plan),
{
    crate::lane_laws::lemma_still_ready(rates, now, items, plan, items);
    crate::plan_laws::lemma_arranged_apart(items, plan, items.dom());
    crate::partition::lemma_splits_finite(crews(plan), items.dom());
    assert forall|t: usize| #[trigger] more.contains_key(t) implies rates.fits(more[t], now) by {
        if items.contains_key(t) {
            assert(rates.fits(items[t], now));
        }
    }
    let stay = kept(more, plan);
    assert forall|i: int| 0 <= i < stay.len() implies rates.fits((#[trigger] stay[i]).shape, now) by {
        crate::lane_laws::lemma_kept_from(more, plan, i);
        let j = choose|j: int|
            0 <= j < plan.len() && stay[i] == team_of(
                more,
                (#[trigger] plan[j]).members.intersect(more.dom()),
            );
        let members = plan[j].members;
        assert(crews(plan)[j] == members);
        assert(members.intersect(more.dom()) =~= members) by {
            assert forall|t: usize| members.contains(t) implies more.dom().contains(t) by {
                assert(crews(plan)[j].contains(t));
                assert(items.contains_key(t));
            }
        }
        assert forall|t: usize| #[trigger] members.contains(t) implies more[t] == items[t] by {
            assert(crews(plan)[j].contains(t));
            assert(items.contains_key(t));
        }
        lemma_gather_agree(more, items, members);
        assert(rates.fits(plan[j].shape, now));
    }
}

/// In no repository that gets arrivals should a timer have rung already.
pub open spec fn punctual(s: State, batch: Map<usize, Ask>, now: u64) -> bool {
    forall|name: Seq<char>| #[trigger]
        touched(batch).contains(name) && s.repos.contains_key(name) ==> now
            <= s.repos[name].wake->0
}

/// A batch of arrivals that fits the jobs known so far.
pub open spec fn welcome(
    rules: Rules,
    all: Map<usize, Ask>,
    s: State,
    batch: Map<usize, Ask>,
    now: u64,
) -> bool {
    &&& sane(rules, all, s)
    &&& acceptable(rules.rates, all)
    &&& punctual(s, batch, now)
    &&& batch.dom().finite()
    &&& forall|t: usize| #[trigger]
        batch.contains_key(t) ==> all.contains_key(t) && batch[t] == all[t] && all[t].at == now
            && !s.waiting().contains(t)
}

/// A repository with its arrivals can be planned.
pub proof fn lemma_filed_ready(
    rules: Rules,
    all: Map<usize, Ask>,
    s: State,
    batch: Map<usize, Ask>,
    now: u64,
    name: Seq<char>,
)
    requires
        welcome(rules, all, s, batch, now),
        touched(batch).contains(name),
    ensures
        ready(
            rules.rates,
            now,
            filed(s.repo(name), batch, name).items,
            filed(s.repo(name), batch, name).plan,
        ),
        belong(all, name, filed(s.repo(name), batch, name)),
        inhabited(filed(s.repo(name), batch, name).items.dom()),
{
    let rates = rules.rates;
    let repo = s.repo(name);
    let more = filed(repo, batch, name).items;
    assert forall|t: usize| #[trigger] more.contains_key(t) implies all.contains_key(t)
        && all[t].repo == name && more[t] == all[t].shape by {
        if news(batch, name).contains_key(t) {
            assert(batch.contains_key(t));
        } else {
            assert(repo.items.contains_key(t));
            assert(s.repos.contains_key(name));
        }
    }
    assert(more.dom().subset_of(all.dom()));
    vstd::set_lib::lemma_set_subset_finite(all.dom(), more.dom());
    vstd::set_lib::lemma_len_subset(more.dom(), all.dom());
    assert forall|t: usize| #[trigger]
        more.contains_key(t) && !repo.items.contains_key(t) implies rates.fits(more[t], now) by {
        assert(batch.contains_key(t));
    }
    assert forall|t: usize| #[trigger] repo.items.contains_key(t) implies more.contains_key(t)
        && more[t] == repo.items[t] by {
        assert(s.repos.contains_key(name));
        assert(s.waiting().contains(t));
        assert(!batch.contains_key(t));
    }
    if s.repos.contains_key(name) {
        assert(steady(rates, repo));
        assert(crate::lane_laws::sound_plan(rates, now, repo.items, repo.plan)) by {
            assert forall|i: int| 0 <= i < repo.plan.len() implies rates.fits(
                (#[trigger] repo.plan[i]).shape,
                now,
            ) by {
                assert(rates.fits(repo.plan[i].shape, repo.wake->0));
            }
        }
        lemma_grown_ready(rates, now, repo.items, repo.plan, more);
    } else {
        assert(kept(more, repo.plan) =~= Seq::<Team>::empty());
        assert forall|t: usize| #[trigger] more.contains_key(t) implies rates.fits(
            more[t],
            now,
        ) by {
            assert(!repo.items.contains_key(t));
        }
    }
    let t = choose|t: usize| #[trigger] batch.contains_key(t) && batch[t].repo == name;
    assert(news(batch, name).contains_key(t));
    assert(more.dom().contains(t));
}

/// Arrivals change just the repositories that they belong to.
pub proof fn lemma_arrive_repos(
    rules: Rules,
    all: Map<usize, Ask>,
    s: State,
    batch: Map<usize, Ask>,
    now: u64,
)
    requires
        welcome(rules, all, s, batch, now),
    ensures
        rules.arrive(s, batch, now).launches == s.launches,
        rules.arrive(s, batch, now).repos.dom() == s.repos.dom().union(touched(batch)),
        forall|name: Seq<char>| #[trigger]
            touched(batch).contains(name) ==> rules.arrive(s, batch, now).repos[name]
                == rules.planned(now, filed(s.repo(name), batch, name))->0,
        forall|name: Seq<char>| #[trigger]
            s.repos.contains_key(name) && !touched(batch).contains(name) ==> rules.arrive(
                s,
                batch,
                now,
            ).repos[name] == s.repos[name],
{
    let names = listing(touched(batch), |a: Seq<char>, b: Seq<char>| name_lt(a, b));
    let mid = s.joined(batch);
    let after = rules.arrive(s, batch, now);
    lemma_touched(batch);
    assert forall|i: int| 0 <= i < names.len() implies mid.repos.contains_key(#[trigger] names[i])
        && inhabited(mid.repos[names[i]].items.dom()) by {
        assert(names.to_set().contains(names[i]));
        lemma_filed_ready(rules, all, s, batch, now, names[i]);
    }
    lemma_replans(rules, mid, names, names.len(), now);
    assert(after.repos.dom() =~= s.repos.dom().union(touched(batch)));
    assert forall|name: Seq<char>| #[trigger] touched(batch).contains(name) implies after.repos[name]
        == rules.planned(now, filed(s.repo(name), batch, name))->0 by {
        assert(names.to_set().contains(name));
        let i = choose|i: int| 0 <= i < names.len() && names[i] == name;
        assert(after.repos[names[i]] == rules.planned(now, mid.repos[names[i]])->0);
    }
    assert forall|name: Seq<char>| #[trigger]
        s.repos.contains_key(name) && !touched(batch).contains(name) implies after.repos[name]
        == s.repos[name] by {
        assert forall|i: int| 0 <= i < names.len() implies names[i] != name by {
            if names[i] == name {
                assert(names.to_set().contains(names[i]));
            }
        }
        assert(mid.repos.contains_key(name));
        assert(filed(s.repo(name), batch, name).items =~= s.repos[name].items) by {
            assert forall|t: usize| !#[trigger] news(batch, name).contains_key(t) by {
                if news(batch, name).contains_key(t) {
                    assert(batch.contains_key(t) && batch[t].repo == name);
                    assert(touched(batch).contains(name));
                }
            }
        }
    }
}

/// After arrivals every repository is steady, and those that got some ring no earlier than
/// now.
proof fn lemma_arrive_steady(
    rules: Rules,
    all: Map<usize, Ask>,
    s: State,
    batch: Map<usize, Ask>,
    now: u64,
    name: Seq<char>,
)
    requires
        welcome(rules, all, s, batch, now),
        rules.arrive(s, batch, now).repos.contains_key(name),
    ensures
        steady(rules.rates, rules.arrive(s, batch, now).repos[name]),
        belong(all, name, rules.arrive(s, batch, now).repos[name]),
        touched(batch).contains(name) || quiet(s, now) ==> now <= rules.arrive(
            s,
            batch,
            now,
        ).repos[name].wake->0,
        touched(batch).contains(name) ==> rules.arrive(s, batch, now).repos[name].items == filed(
            s.repo(name),
            batch,
            name,
        ).items,
{
    lemma_arrive_repos(rules, all, s, batch, now);
    if touched(batch).contains(name) {
        lemma_filed_ready(rules, all, s, batch, now, name);
        lemma_planned(rules, now, filed(s.repo(name), batch, name));
    } else {
        assert(s.repos.contains_key(name));
    }
}

/// After arrivals the new jobs wait too.
proof fn lemma_arrive_waiting(
    rules: Rules,
    all: Map<usize, Ask>,
    s: State,
    batch: Map<usize, Ask>,
    now: u64,
    t: usize,
)
    requires
        welcome(rules, all, s, batch, now),
    ensures
        rules.arrive(s, batch, now).waiting().contains(t) <==> s.waiting().contains(t)
            || batch.contains_key(t),
{
    let after = rules.arrive(s, batch, now);
    lemma_arrive_repos(rules, all, s, batch, now);
    if after.waiting().contains(t) {
        let n = choose|n: Seq<char>| #[trigger]
            after.repos.contains_key(n) && after.repos[n].items.contains_key(t);
        lemma_arrive_steady(rules, all, s, batch, now, n);
        if touched(batch).contains(n) {
            if news(batch, n).contains_key(t) {
                assert(batch.contains_key(t));
            } else {
                assert(s.repo(n).items.contains_key(t));
                assert(s.repos.contains_key(n) && s.repos[n].items.contains_key(t));
            }
        } else {
            assert(s.repos.contains_key(n) && s.repos[n].items.contains_key(t));
        }
    }
    if s.waiting().contains(t) {
        let n = choose|n: Seq<char>| #[trigger]
            s.repos.contains_key(n) && s.repos[n].items.contains_key(t);
        assert(after.repos.contains_key(n));
        lemma_arrive_steady(rules, all, s, batch, now, n);
        assert(after.repos.contains_key(n) && after.repos[n].items.contains_key(t));
    }
    if batch.contains_key(t) {
        let n = batch[t].repo;
        assert(touched(batch).contains(n));
        assert(news(batch, n).contains_key(t));
        assert(after.repos.contains_key(n));
        lemma_arrive_steady(rules, all, s, batch, now, n);
        assert(after.repos.contains_key(n) && after.repos[n].items.contains_key(t));
    }
}

/// Arrivals keep everything sane, and set no timer to ring before now.
pub proof fn lemma_arrive(
    rules: Rules,
    all: Map<usize, Ask>,
    s: State,
    batch: Map<usize, Ask>,
    now: u64,
)
    requires
        welcome(rules, all, s, batch, now),
    ensures
        sane(rules, all, rules.arrive(s, batch, now)),
        quiet(s, now) ==> quiet(rules.arrive(s, batch, now), now),
        rules.arrive(s, batch, now).launches == s.launches,
        forall|t: usize| #[trigger]
            rules.arrive(s, batch, now).waiting().contains(t) <==> s.waiting().contains(t)
                || batch.contains_key(t),
{
    let after = rules.arrive(s, batch, now);
    lemma_arrive_repos(rules, all, s, batch, now);
    lemma_touched(batch);
    assert forall|name: Seq<char>| #[trigger] after.repos.contains_key(name) implies steady(
        rules.rates,
        after.repos[name],
    ) && belong(all, name, after.repos[name]) && (quiet(s, now) ==> now
        <= after.repos[name].wake->0) by {
        lemma_arrive_steady(rules, all, s, batch, now, name);
    }
    assert forall|t: usize| #[trigger] after.waiting().contains(t) <==> s.waiting().contains(t)
        || batch.contains_key(t) by {
        lemma_arrive_waiting(rules, all, s, batch, now, t);
    }
}

} // verus!
