//! Repositories do not interfere: each is served as if it were the only one.
use vstd::prelude::*;

use crate::drive_laws::{lemma_dawn, lemma_moment, underway};
use crate::lane::{fired, Launch, Rules};
use crate::lane_laws::{lemma_fired, steady, timely};
use crate::state::{arriving, dawn, filed, is_dawn, later, news, touched, Ask, State};
use crate::state_laws::{
    acceptable, belong, lemma_advance, lemma_advance_twice, lemma_arrive_repos, lemma_next,
    lemma_progress, lemma_ring, sane, welcome,
};

verus! {

/// The jobs of one repository.
pub open spec fn only(asks: Map<usize, Ask>, name: Seq<char>) -> Map<usize, Ask> {
    asks.restrict(asks.dom().filter(|t: usize| asks[t].repo == name))
}

/// The batch has a job of the repository.
pub open spec fn serves(all: Map<usize, Ask>, name: Seq<char>, launch: Launch) -> bool {
    exists|t: usize| #[trigger] launch.jobs.contains(t) && all[t].repo == name
}

/// The batches that serve one repository.
pub open spec fn mine(all: Map<usize, Ask>, name: Seq<char>, launches: Seq<Launch>) -> Seq<Launch> {
    launches.filter(|launch: Launch| serves(all, name, launch))
}

/// `m` is what `s` is for one repository.
pub open spec fn echoes(all: Map<usize, Ask>, name: Seq<char>, s: State, m: State) -> bool {
    &&& m.repos == s.repos.restrict(set![name])
    &&& m.launches == mine(all, name, s.launches)
}

/// All batches are for the repository.
proof fn lemma_mine_all(all: Map<usize, Ask>, name: Seq<char>, launches: Seq<Launch>)
    requires
        forall|i: int| 0 <= i < launches.len() ==> serves(all, name, #[trigger] launches[i]),
    ensures
        mine(all, name, launches) == launches,
    decreases launches.len(),
{
    reveal(Seq::filter);
    if launches.len() > 0 {
        let init = launches.drop_last();
        assert forall|i: int| 0 <= i < init.len() implies serves(all, name, #[trigger] init[i]) by {
            assert(init[i] == launches[i]);
        }
        lemma_mine_all(all, name, init);
        assert(serves(all, name, launches[launches.len() - 1]));
        assert(launches =~= init.push(launches.last()));
    }
}

/// No batch is for the repository.
proof fn lemma_mine_none(all: Map<usize, Ask>, name: Seq<char>, launches: Seq<Launch>)
    requires
        forall|i: int| 0 <= i < launches.len() ==> !serves(all, name, #[trigger] launches[i]),
    ensures
        mine(all, name, launches) == Seq::<Launch>::empty(),
    decreases launches.len(),
{
    reveal(Seq::filter);
    if launches.len() > 0 {
        let init = launches.drop_last();
        assert forall|i: int| 0 <= i < init.len() implies !serves(all, name, #[trigger] init[i]) by {
            assert(init[i] == launches[i]);
        }
        lemma_mine_none(all, name, init);
        assert(!serves(all, name, launches[launches.len() - 1]));
    }
}

proof fn lemma_mine_add(
    all: Map<usize, Ask>,
    name: Seq<char>,
    a: Seq<Launch>,
    b: Seq<Launch>,
)
    ensures
        mine(all, name, a + b) == mine(all, name, a) + mine(all, name, b),
{
    Seq::filter_distributes_over_add(a, b, |launch: Launch| serves(all, name, launch));
}

/// The launches of one ring serve the repository whose timer rings.
proof fn lemma_ring_serves(rules: Rules, all: Map<usize, Ask>, s: State, name: Seq<char>)
    requires
        sane(rules, all, s),
        !s.idle(),
    ensures
        mine(
            all,
            name,
            fired(rules.rates, s.next_wake()->0, s.repos[s.next()]).1,
        ) == if name == s.next() {
            fired(rules.rates, s.next_wake()->0, s.repos[s.next()]).1
        } else {
            Seq::<Launch>::empty()
        },
{
    let repo = s.repos[s.next()];
    let now = s.next_wake()->0;
    lemma_ring(rules, all, s);
    lemma_fired(rules, repo);
    let shots = fired(rules.rates, now, repo).1;
    assert forall|i: int, t: usize|
        0 <= i < shots.len() && #[trigger] shots[i].jobs.contains(t) implies all[t].repo
        == s.next() by {
        assert(repo.items.contains_key(t));
    }
    if name == s.next() {
        assert forall|i: int| 0 <= i < shots.len() implies serves(all, name, #[trigger] shots[i]) by {
            assert(timely(rules.rates, repo.items, shots[i]));
            let t = choose|t: usize| #[trigger] shots[i].jobs.contains(t);
            assert(shots[i].jobs.contains(t));
        }
        lemma_mine_all(all, name, shots);
    } else {
        lemma_mine_none(all, name, shots);
    }
}

/// Where the whole is sane, the part is.
proof fn lemma_echo_sane(
    rules: Rules,
    all: Map<usize, Ask>,
    name: Seq<char>,
    s: State,
    m: State,
)
    requires
        sane(rules, all, s),
        echoes(all, name, s, m),
        all.dom().finite(),
    ensures
        sane(rules, only(all, name), m),
        only(all, name).dom().finite(),
{
    let part = only(all, name);
    assert(part.dom().subset_of(all.dom()));
    vstd::set_lib::lemma_set_subset_finite(all.dom(), part.dom());
    assert(m.repos.dom().subset_of(s.repos.dom()));
    vstd::set_lib::lemma_set_subset_finite(s.repos.dom(), m.repos.dom());
    assert forall|n: Seq<char>| #[trigger] m.repos.contains_key(n) implies steady(
        rules.rates,
        m.repos[n],
    ) && belong(part, n, m.repos[n]) by {
        assert(s.repos.contains_key(n) && n == name);
        assert(m.repos[n] == s.repos[n]);
    }
}

/// The part advances with the whole.
proof fn lemma_advance_echo(
    rules: Rules,
    all: Map<usize, Ask>,
    name: Seq<char>,
    s: State,
    m: State,
    limit: u64,
    inclusive: bool,
)
    requires
        sane(rules, all, s),
        all.dom().finite(),
        echoes(all, name, s, m),
    ensures
        echoes(
            all,
            name,
            rules.advance(s, limit, inclusive),
            rules.advance(m, limit, inclusive),
        ),
    decreases s.waiting().len(),
{
    let part = only(all, name);
    lemma_echo_sane(rules, all, name, s, m);
    lemma_next(s);
    lemma_next(m);
    if s.rung(limit, inclusive) {
        let q = s.next();
        let now = s.next_wake()->0;
        let after = rules.ring(s);
        lemma_progress(rules, all, s);
        lemma_ring(rules, all, s);
        lemma_ring_serves(rules, all, s, name);
        let shots = fired(rules.rates, now, s.repos[q]).1;
        lemma_mine_add(all, name, s.launches, shots);
        if q == name {
            assert(m.repos.contains_key(name) && m.repos[name] == s.repos[name]);
            assert(m.awake().contains(name));
            assert(m.next() == name) by {
                assert(m.awake().contains(m.next()));
            }
            lemma_progress(rules, part, m);
            lemma_ring(rules, part, m);
            assert(rules.ring(m).repos =~= after.repos.restrict(set![name]));
            lemma_advance_echo(rules, all, name, after, rules.ring(m), limit, inclusive);
        } else {
            assert(after.repos.restrict(set![name]) =~= s.repos.restrict(set![name]));
            assert(mine(all, name, s.launches) + Seq::<Launch>::empty() =~= mine(
                all,
                name,
                s.launches,
            ));
            lemma_advance_echo(rules, all, name, after, m, limit, inclusive);
        }
    } else {
        if m.rung(limit, inclusive) {
            assert(m.awake().contains(m.next()));
            assert(m.repos.contains_key(m.next()) && m.next() == name);
            assert(m.repos[name] == s.repos[name]);
            assert(s.awake().contains(name));
        }
    }
}

/// Arrivals elsewhere change nothing here; arrivals here are seen here.
proof fn lemma_arrive_echo(
    rules: Rules,
    all: Map<usize, Ask>,
    name: Seq<char>,
    s: State,
    m: State,
    batch: Map<usize, Ask>,
    now: u64,
)
    requires
        welcome(rules, all, s, batch, now),
        welcome(rules, only(all, name), m, only(batch, name), now),
        echoes(all, name, s, m),
    ensures
        touched(batch).contains(name) ==> echoes(
            all,
            name,
            rules.arrive(s, batch, now),
            rules.arrive(m, only(batch, name), now),
        ),
        !touched(batch).contains(name) ==> echoes(all, name, rules.arrive(s, batch, now), m),
{
    let part = only(all, name);
    let mybatch = only(batch, name);
    let after = rules.arrive(s, batch, now);
    lemma_arrive_repos(rules, all, s, batch, now);
    if touched(batch).contains(name) {
        lemma_arrive_repos(rules, part, m, mybatch, now);
        let mafter = rules.arrive(m, mybatch, now);
        assert forall|n: Seq<char>| #[trigger] touched(mybatch).contains(n) <==> n == name by {
            if touched(mybatch).contains(n) {
                let t = choose|t: usize| #[trigger] mybatch.contains_key(t) && mybatch[t].repo == n;
                assert(batch.contains_key(t));
            }
            if n == name {
                let t = choose|t: usize| #[trigger] batch.contains_key(t) && batch[t].repo == n;
                assert(mybatch.contains_key(t) && mybatch[t].repo == n);
            }
        }
        assert(news(batch, name) =~= news(mybatch, name));
        assert(s.repo(name) == m.repo(name)) by {
            if s.repos.contains_key(name) {
                assert(m.repos.contains_key(name));
            }
        }
        assert(filed(s.repo(name), batch, name) == filed(m.repo(name), mybatch, name));
        assert(touched(mybatch).contains(name));
        assert(mafter.repos =~= after.repos.restrict(set![name]));
    } else {
        assert(after.repos.restrict(set![name]) =~= m.repos) by {
            if s.repos.contains_key(name) {
                assert(after.repos[name] == s.repos[name]);
            }
        }
    }
}

/// The part after time has passed.
spec fn passed(rules: Rules, m: State, clock: int) -> State {
    if clock < 0 {
        m
    } else {
        rules.advance(m, clock as u64, true)
    }
}

proof fn lemma_passed(rules: Rules, m: State, clock: int, limit: u64, inclusive: bool)
    requires
        clock < limit || clock == limit && inclusive,
    ensures
        rules.advance(passed(rules, m, clock), limit, inclusive) == rules.advance(
            m,
            limit,
            inclusive,
        ),
{
    if clock >= 0 {
        lemma_advance_twice(rules, m, clock as u64, true, limit, inclusive);
    }
}

/// The part goes through its arrivals as the whole does through all.
proof fn lemma_drive_echo(
    rules: Rules,
    all: Map<usize, Ask>,
    name: Seq<char>,
    s: State,
    m: State,
    rest: Map<usize, Ask>,
    clock: int,
)
    requires
        underway(rules, all, s, rest),
        underway(rules, only(all, name), m, only(rest, name)),
        -1 <= clock <= u64::MAX,
        echoes(all, name, s, passed(rules, m, clock)),
        forall|t: usize| #[trigger] rest.contains_key(t) ==> clock < rest[t].at,
    ensures
        echoes(
            all,
            name,
            rules.advance(rules.drive(s, rest), u64::MAX, true),
            rules.advance(rules.drive(m, only(rest, name)), u64::MAX, true),
        ),
    decreases rest.dom().len(),
{
    let part = only(all, name);
    let mine_rest = only(rest, name);
    assert(rest.dom().subset_of(all.dom()));
    vstd::set_lib::lemma_set_subset_finite(all.dom(), rest.dom());
    assert(mine_rest.dom().subset_of(rest.dom()));
    vstd::set_lib::lemma_set_subset_finite(rest.dom(), mine_rest.dom());
    if rest.dom().len() == 0 {
        vstd::set_lib::lemma_len_subset(mine_rest.dom(), rest.dom());
        assert(rules.drive(m, mine_rest) == m);
        assert(rules.drive(s, rest) == s);
        lemma_passed(rules, m, clock, u64::MAX, true);
        lemma_advance_echo(rules, all, name, s, passed(rules, m, clock), u64::MAX, true);
    } else {
        lemma_dawn(rest);
        let now = dawn(rest);
        let u = choose|u: usize| #[trigger] rest.contains_key(u) && rest[u].at == now;
        assert(clock < rest[u].at);
        let batch = arriving(rest, now);
        let mybatch = only(batch, name);
        let s1 = rules.advance(s, now, false);
        let m1 = rules.advance(m, now, false);
        lemma_moment(rules, all, s, rest, now);
        lemma_passed(rules, m, clock, now, false);
        lemma_advance_echo(rules, all, name, s, passed(rules, m, clock), now, false);
        lemma_echo_sane(rules, all, name, s1, m1);
        assert(welcome(rules, part, m1, mybatch, now)) by {
            lemma_advance(rules, part, m, now, false);
            crate::drive_laws::lemma_advance_waiting(rules, part, m, now, false);
            assert(mybatch.dom().subset_of(batch.dom()));
            vstd::set_lib::lemma_set_subset_finite(batch.dom(), mybatch.dom());
            assert forall|t: usize| #[trigger] mybatch.contains_key(t) implies part.contains_key(t)
                && mybatch[t] == part[t] && part[t].at == now && !m1.waiting().contains(t) by {
                assert(batch.contains_key(t));
                assert(rest.contains_key(t));
                assert(mine_rest.contains_key(t));
            }
        }
        lemma_arrive_echo(rules, all, name, s1, m1, batch, now);
        let s2 = rules.arrive(s1, batch, now);
        let s3 = rules.moment(s, batch, now);
        let rest2 = later(rest, now);
        assert forall|t: usize| #[trigger] rest2.contains_key(t) implies now < rest2[t].at by {
            assert(rest.contains_key(t));
        }
        if touched(batch).contains(name) {
            let t = choose|t: usize| #[trigger] batch.contains_key(t) && batch[t].repo == name;
            assert(mine_rest.contains_key(t) && mine_rest[t].at == now);
            assert forall|t: usize| #[trigger] mine_rest.contains_key(t) implies now
                <= mine_rest[t].at by {
                assert(rest.contains_key(t));
            }
            assert(is_dawn(mine_rest, now));
            assert(arriving(mine_rest, now) =~= mybatch);
            assert(only(rest2, name) =~= later(mine_rest, now));
            lemma_moment(rules, part, m, mine_rest, now);
            let m2 = rules.arrive(m1, mybatch, now);
            let m3 = rules.moment(m, mybatch, now);
            lemma_advance_echo(rules, all, name, s2, m2, now, true);
            lemma_advance_twice(rules, m2, now, true, now, true);
            assert(passed(rules, m3, now as int) == m3);
            lemma_drive_echo(rules, all, name, s3, m3, rest2, now as int);
        } else {
            assert(only(rest2, name) =~= mine_rest) by {
                assert forall|t: usize| mine_rest.contains_key(t) implies rest2.contains_key(t) by {
                    if rest[t].at == now {
                        assert(batch.contains_key(t) && batch[t].repo == name);
                        assert(touched(batch).contains(name));
                    }
                }
            }
            lemma_advance_echo(rules, all, name, s2, m1, now, true);
            lemma_advance_twice(rules, m, now, false, now, true);
            assert(passed(rules, m, now as int) == rules.advance(m1, now, true));
            lemma_drive_echo(rules, all, name, s3, m, rest2, now as int);
        }
    }
}

/// The batches launched for one repository are those launched if there were no other.
pub proof fn lemma_solo(rules: Rules, all: Map<usize, Ask>, name: Seq<char>)
    requires
        acceptable(rules.rates, all),
    ensures
        mine(all, name, rules.run(all).launches) == rules.run(only(all, name)).launches,
{
    let start = State::start();
    let part = only(all, name);
    assert(part.dom().subset_of(all.dom()));
    vstd::set_lib::lemma_set_subset_finite(all.dom(), part.dom());
    vstd::set_lib::lemma_len_subset(part.dom(), all.dom());
    assert(underway(rules, all, start, all));
    assert(underway(rules, part, start, part));
    assert(mine(all, name, start.launches) =~= Seq::<Launch>::empty()) by {
        lemma_mine_none(all, name, start.launches);
    }
    assert(start.repos.restrict(set![name]) =~= start.repos);
    assert(echoes(all, name, start, passed(rules, start, -1)));
    lemma_drive_echo(rules, all, name, start, start, all, -1);
}

} // verus!
