//! Which token stands for which job drives no decision.
use vstd::prelude::*;

use crate::bits::bits_lt;
use crate::cover::best_parts;
use crate::hunt_laws::index_sets;
use crate::listing::{listing, upto};
use crate::partition::inhabited;
use crate::plan::{
    alternative, carried, effort, greedy, held, holders, hunted, kept, nodes, opening, plan, ready,
    stopped, together,
};
use crate::policy::Policy;
use crate::shape::{lemma_gather_renamed, Rates, Shape};
use crate::team::{
    alike, arranges, best_fit, bundle, bundles, crew_of, inserted, kinds, merge, patterns,
    placed_upto, shapes, team_of, urgency, Team,
};

verus! {

/// Different tokens in `whole` get different names.
pub open spec fn injects(f: spec_fn(usize) -> usize, whole: Set<usize>) -> bool {
    forall|x: usize, y: usize|
        whole.contains(x) && whole.contains(y) && #[trigger] f(x) == #[trigger] f(y) ==> x == y
}

/// The entries under their new names.
pub open spec fn renamed<V>(f: spec_fn(usize) -> usize, m: Map<usize, V>) -> Map<usize, V> {
    Map::new(
        |u: usize| m.dom().map(f).contains(u),
        |u: usize| m[choose|t: usize| #[trigger] m.contains_key(t) && f(t) == u],
    )
}

pub proof fn lemma_renamed<V>(f: spec_fn(usize) -> usize, m: Map<usize, V>)
    requires
        injects(f, m.dom()),
    ensures
        renamed(f, m).dom() == m.dom().map(f),
        forall|t: usize| #[trigger]
            m.contains_key(t) ==> renamed(f, m).contains_key(f(t)) && renamed(f, m)[f(t)] == m[t],
{
    assert(renamed(f, m).dom() =~= m.dom().map(f));
    assert forall|t: usize| #[trigger] m.contains_key(t) implies renamed(f, m).contains_key(f(t))
        && renamed(f, m)[f(t)] == m[t] by {
        assert(m.dom().contains(t));
        let u = choose|u: usize| #[trigger] m.contains_key(u) && f(u) == f(t);
        assert(m.contains_key(u) && f(u) == f(t));
        assert(m.dom().contains(u));
    }
}

/// Any map with these entries is the renamed map.
pub proof fn lemma_renamed_is<V>(f: spec_fn(usize) -> usize, m: Map<usize, V>, other: Map<usize, V>)
    requires
        injects(f, m.dom()),
        other.dom() == m.dom().map(f),
        forall|t: usize| #[trigger] m.contains_key(t) ==> other[f(t)] == m[t],
    ensures
        other == renamed(f, m),
{
    lemma_renamed(f, m);
    assert forall|u: usize| other.contains_key(u) implies other[u] == renamed(f, m)[u] by {
        assert(m.dom().map(f).contains(u));
        let t = choose|t: usize| m.dom().contains(t) && u == f(t);
        assert(m.contains_key(t));
    }
    assert(other =~= renamed(f, m));
}

/// The team under new names.
pub open spec fn renamed_team(f: spec_fn(usize) -> usize, team: Team) -> Team {
    Team { shape: team.shape, members: team.members.map(f) }
}

pub open spec fn renamed_teams(f: spec_fn(usize) -> usize, teams: Seq<Team>) -> Seq<Team> {
    teams.map_values(|team: Team| renamed_team(f, team))
}

/// All members are among the known tokens.
pub open spec fn within(teams: Seq<Team>, whole: Set<usize>) -> bool {
    forall|i: int| 0 <= i < teams.len() ==> (#[trigger] teams[i]).members.subset_of(whole)
}

// Sets under new names.

pub proof fn lemma_map_union(f: spec_fn(usize) -> usize, a: Set<usize>, b: Set<usize>)
    ensures
        a.union(b).map(f) == a.map(f).union(b.map(f)),
{
    assert forall|u: usize| #[trigger] a.union(b).map(f).contains(u) <==> a.map(f).union(
        b.map(f),
    ).contains(u) by {
        if a.map(f).contains(u) {
            let t = choose|t: usize| a.contains(t) && u == f(t);
            assert(a.union(b).contains(t));
        }
        if b.map(f).contains(u) {
            let t = choose|t: usize| b.contains(t) && u == f(t);
            assert(a.union(b).contains(t));
        }
        if a.union(b).map(f).contains(u) {
            let t = choose|t: usize| a.union(b).contains(t) && u == f(t);
            assert(a.contains(t) || b.contains(t));
        }
    }
    assert(a.union(b).map(f) =~= a.map(f).union(b.map(f)));
}

pub proof fn lemma_map_contains(
    f: spec_fn(usize) -> usize,
    whole: Set<usize>,
    a: Set<usize>,
    t: usize,
)
    requires
        injects(f, whole),
        a.subset_of(whole),
        whole.contains(t),
    ensures
        a.map(f).contains(f(t)) <==> a.contains(t),
{
    if a.map(f).contains(f(t)) {
        let u = choose|u: usize| a.contains(u) && f(t) == f(u);
        assert(whole.contains(u));
    }
}

pub proof fn lemma_map_intersect(
    f: spec_fn(usize) -> usize,
    whole: Set<usize>,
    a: Set<usize>,
    b: Set<usize>,
)
    requires
        injects(f, whole),
        a.subset_of(whole),
        b.subset_of(whole),
    ensures
        a.intersect(b).map(f) == a.map(f).intersect(b.map(f)),
        a.difference(b).map(f) == a.map(f).difference(b.map(f)),
{
    assert forall|u: usize| #[trigger] a.intersect(b).map(f).contains(u) <==> a.map(f).intersect(
        b.map(f),
    ).contains(u) by {
        if a.map(f).intersect(b.map(f)).contains(u) {
            let t = choose|t: usize| a.contains(t) && u == f(t);
            lemma_map_contains(f, whole, b, t);
            assert(a.intersect(b).contains(t));
        }
        if a.intersect(b).map(f).contains(u) {
            let t = choose|t: usize| a.intersect(b).contains(t) && u == f(t);
            assert(a.contains(t) && b.contains(t));
        }
    }
    assert(a.intersect(b).map(f) =~= a.map(f).intersect(b.map(f)));
    assert forall|u: usize| #[trigger] a.difference(b).map(f).contains(u) <==> a.map(f).difference(
        b.map(f),
    ).contains(u) by {
        if a.map(f).difference(b.map(f)).contains(u) {
            let t = choose|t: usize| a.contains(t) && u == f(t);
            lemma_map_contains(f, whole, b, t);
            assert(a.difference(b).contains(t));
        }
        if a.difference(b).map(f).contains(u) {
            let t = choose|t: usize| a.difference(b).contains(t) && u == f(t);
            lemma_map_contains(f, whole, b, t);
            assert(a.contains(t));
        }
    }
    assert(a.difference(b).map(f) =~= a.map(f).difference(b.map(f)));
}

pub proof fn lemma_map_inhabited(f: spec_fn(usize) -> usize, a: Set<usize>)
    ensures
        inhabited(a.map(f)) <==> inhabited(a),
{
    if inhabited(a) {
        let t = choose|t: usize| #[trigger] a.contains(t);
        assert(a.contains(t));
        assert(a.map(f).contains(f(t)));
    }
    if inhabited(a.map(f)) {
        let u = choose|u: usize| #[trigger] a.map(f).contains(u);
        let t = choose|t: usize| a.contains(t) && u == f(t);
        assert(a.contains(t));
    }
}

// Plans under new names.

pub proof fn lemma_shapes_renamed(f: spec_fn(usize) -> usize, teams: Seq<Team>)
    ensures
        shapes(renamed_teams(f, teams)) == shapes(teams),
{
    assert(shapes(renamed_teams(f, teams)) =~= shapes(teams));
}

/// A batch asks for the same under new names.
pub proof fn lemma_team_renamed(
    f: spec_fn(usize) -> usize,
    items: Map<usize, Shape>,
    members: Set<usize>,
)
    requires
        injects(f, items.dom()),
        items.dom().finite(),
        members.subset_of(items.dom()),
    ensures
        team_of(renamed(f, items), members.map(f)) == renamed_team(f, team_of(items, members)),
{
    lemma_renamed(f, items);
    vstd::set_lib::lemma_set_subset_finite(items.dom(), members);
    assert forall|t: usize| #[trigger] members.contains(t) implies items[t] == renamed(
        f,
        items,
    )[f(t)] by {
        assert(items.contains_key(t));
    }
    lemma_gather_renamed(items, renamed(f, items), members, f);
}

pub proof fn lemma_patterns_renamed(
    f: spec_fn(usize) -> usize,
    items: Map<usize, Shape>,
    tokens: Set<usize>,
)
    requires
        injects(f, items.dom()),
        items.dom().finite(),
        tokens.subset_of(items.dom()),
    ensures
        patterns(renamed(f, items), tokens.map(f)) == renamed_teams(f, patterns(items, tokens)),
{
    let new = renamed(f, items);
    lemma_renamed(f, items);
    let k1 = kinds(items, tokens);
    let k2 = kinds(new, tokens.map(f));
    assert forall|k: Set<usize>| k1.contains(k) <==> k2.contains(k) by {
        if k1.contains(k) {
            let t = choose|t: usize| tokens.contains(t) && k == items[t].checks;
            assert(items.contains_key(t));
            assert(tokens.map(f).contains(f(t)));
            assert(new[f(t)].checks == k);
        }
        if k2.contains(k) {
            let u = choose|u: usize| tokens.map(f).contains(u) && k == new[u].checks;
            let t = choose|t: usize| tokens.contains(t) && u == f(t);
            assert(items.contains_key(t));
            assert(items[t].checks == k);
        }
    }
    assert(k1 =~= k2);
    assert forall|kind: Set<usize>| #[trigger]
        team_of(new, alike(new, tokens.map(f), kind)) == renamed_team(
            f,
            team_of(items, alike(items, tokens, kind)),
        ) by {
        let crew = alike(items, tokens, kind);
        assert(alike(new, tokens.map(f), kind) =~= crew.map(f)) by {
            assert forall|u: usize| #[trigger] alike(new, tokens.map(f), kind).contains(u)
                <==> crew.map(f).contains(u) by {
                if alike(new, tokens.map(f), kind).contains(u) {
                    let t = choose|t: usize| tokens.contains(t) && u == f(t);
                    assert(items.contains_key(t));
                    assert(crew.contains(t));
                }
                if crew.map(f).contains(u) {
                    let t = choose|t: usize| crew.contains(t) && u == f(t);
                    assert(items.contains_key(t));
                    assert(tokens.contains(t));
                }
            }
        }
        assert(crew.subset_of(items.dom()));
        lemma_team_renamed(f, items, crew);
    }
    let l = listing(k1, |a: Set<usize>, b: Set<usize>| bits_lt(a, b));
    assert(patterns(new, tokens.map(f)) =~= renamed_teams(f, patterns(items, tokens))) by {
        assert forall|i: int| 0 <= i < l.len() implies patterns(new, tokens.map(f))[i]
            == renamed_teams(f, patterns(items, tokens))[i] by {
            assert(team_of(new, alike(new, tokens.map(f), l[i])) == renamed_team(
                f,
                team_of(items, alike(items, tokens, l[i])),
            ));
        }
    }
}

proof fn lemma_placed_renamed(
    f: spec_fn(usize) -> usize,
    rates: Rates,
    now: u64,
    teams: Seq<Team>,
    incoming: Seq<Team>,
    order: Seq<usize>,
    k: nat,
)
    requires
        k <= order.len(),
        order.len() == incoming.len(),
        forall|i: int| 0 <= i < order.len() ==> (#[trigger] order[i]) < incoming.len(),
        teams.len() + incoming.len() <= usize::MAX,
    ensures
        placed_upto(rates, now, renamed_teams(f, teams), renamed_teams(f, incoming), order, k)
            == renamed_teams(f, placed_upto(rates, now, teams, incoming, order, k)),
        placed_upto(rates, now, teams, incoming, order, k).len() <= teams.len() + k,
    decreases k,
{
    if k > 0 {
        lemma_placed_renamed(f, rates, now, teams, incoming, order, (k - 1) as nat);
        let before = placed_upto(rates, now, teams, incoming, order, (k - 1) as nat);
        let job = incoming[order[k - 1] as int];
        let after = placed_upto(rates, now, teams, incoming, order, k);
        lemma_shapes_renamed(f, before);
        assert(renamed_teams(f, incoming)[order[k - 1] as int] == renamed_team(f, job));
        crate::team::lemma_best_fit(rates, now, shapes(before), job.shape);
        match best_fit(rates, now, shapes(before), job.shape) {
            Some(i) => {
                lemma_map_union(f, before[i as int].members, job.members);
                assert(merge(renamed_team(f, before[i as int]), renamed_team(f, job))
                    == renamed_team(f, merge(before[i as int], job)));
            },
            None => {},
        }
        assert(placed_upto(
            rates,
            now,
            renamed_teams(f, teams),
            renamed_teams(f, incoming),
            order,
            k,
        ) =~= renamed_teams(f, after));
    }
}

pub proof fn lemma_inserted_renamed(
    f: spec_fn(usize) -> usize,
    rates: Rates,
    now: u64,
    teams: Seq<Team>,
    incoming: Seq<Team>,
)
    requires
        teams.len() + incoming.len() <= usize::MAX,
    ensures
        inserted(rates, now, renamed_teams(f, teams), renamed_teams(f, incoming)) == renamed_teams(
            f,
            inserted(rates, now, teams, incoming),
        ),
{
    lemma_shapes_renamed(f, incoming);
    let order = urgency(rates, shapes(incoming));
    crate::team::lemma_urgency(rates, shapes(incoming));
    lemma_placed_renamed(f, rates, now, teams, incoming, order, incoming.len());
}

proof fn lemma_kept_renamed(
    f: spec_fn(usize) -> usize,
    whole: Set<usize>,
    items: Map<usize, Shape>,
    previous: Seq<Team>,
)
    requires
        injects(f, whole),
        items.dom().finite(),
        items.dom().subset_of(whole),
        within(previous, whole),
    ensures
        kept(renamed(f, items), renamed_teams(f, previous)) == renamed_teams(
            f,
            kept(items, previous),
        ),
    decreases previous.len(),
{
    let new = renamed(f, items);
    let named = renamed_teams(f, previous);
    lemma_renamed(f, items);
    if previous.len() == 0 {
        assert(kept(new, named) =~= renamed_teams(f, kept(items, previous)));
    } else {
        let init = previous.drop_last();
        assert(renamed_teams(f, init) =~= named.drop_last());
        assert(within(init, whole));
        lemma_kept_renamed(f, whole, items, init);
        let last = previous.last();
        assert(previous[previous.len() - 1] == last);
        let live = last.members.intersect(items.dom());
        lemma_map_intersect(f, whole, last.members, items.dom());
        assert(named.last() == renamed_team(f, last));
        lemma_map_inhabited(f, live);
        lemma_team_renamed(f, items, live);
        assert(kept(new, named) =~= renamed_teams(f, kept(items, previous)));
    }
}

proof fn lemma_held_renamed(f: spec_fn(usize) -> usize, teams: Seq<Team>)
    ensures
        held(renamed_teams(f, teams)) == held(teams).map(f),
{
    let named = renamed_teams(f, teams);
    assert forall|u: usize| #[trigger] held(named).contains(u) <==> held(teams).map(f).contains(
        u,
    ) by {
        if held(named).contains(u) {
            let i = choose|i: int| 0 <= i < named.len() && (#[trigger] named[i]).members.contains(u);
            assert(named[i] == renamed_team(f, teams[i]));
            let t = choose|t: usize| teams[i].members.contains(t) && u == f(t);
            assert(held(teams).contains(t));
        }
        if held(teams).map(f).contains(u) {
            let t = choose|t: usize| held(teams).contains(t) && u == f(t);
            let i = choose|i: int| 0 <= i < teams.len() && (#[trigger] teams[i]).members.contains(t);
            assert(named[i] == renamed_team(f, teams[i]));
            assert(named[i].members.contains(u));
        }
    }
    assert(held(named) =~= held(teams).map(f));
}

proof fn lemma_carried_renamed(
    f: spec_fn(usize) -> usize,
    whole: Set<usize>,
    rates: Rates,
    now: u64,
    items: Map<usize, Shape>,
    previous: Seq<Team>,
)
    requires
        injects(f, whole),
        items.dom().subset_of(whole),
        within(previous, whole),
        ready(rates, now, items, previous),
    ensures
        carried(rates, now, renamed(f, items), renamed_teams(f, previous)) == renamed_teams(
            f,
            carried(rates, now, items, previous),
        ),
{
    let stay = kept(items, previous);
    let others = items.dom().difference(held(stay));
    let incoming = patterns(items, others);
    lemma_renamed(f, items);
    lemma_kept_renamed(f, whole, items, previous);
    lemma_held_renamed(f, stay);
    crate::plan_laws::lemma_kept(items, previous);
    assert(held(stay).subset_of(items.dom()));
    lemma_map_intersect(f, whole, items.dom(), held(stay));
    lemma_patterns_renamed(f, items, others);
    vstd::set_lib::lemma_set_subset_finite(items.dom(), held(stay));
    crate::team::lemma_patterns_arrange(items, others);
    crate::partition::lemma_splits_len(crate::team::crews(stay), held(stay));
    assert(held(stay).union(others) =~= items.dom());
    vstd::set_lib::lemma_set_disjoint_lens(held(stay), others);
    lemma_inserted_renamed(f, rates, now, stay, incoming);
}

pub proof fn lemma_bundles_renamed(
    f: spec_fn(usize) -> usize,
    all: Seq<Team>,
    parts: Seq<Set<usize>>,
)
    ensures
        bundles(renamed_teams(f, all), parts) == renamed_teams(f, bundles(all, parts)),
{
    let named = renamed_teams(f, all);
    lemma_shapes_renamed(f, all);
    assert forall|block: Set<usize>| #[trigger] bundle(named, block) == renamed_team(
        f,
        bundle(all, block),
    ) by {
        let crew = crew_of(all, block);
        assert forall|u: usize| #[trigger] crew_of(named, block).contains(u) <==> crew.map(
            f,
        ).contains(u) by {
            if crew_of(named, block).contains(u) {
                let i = choose|i: usize| #[trigger]
                    block.contains(i) && i < named.len() && named[i as int].members.contains(u);
                assert(named[i as int] == renamed_team(f, all[i as int]));
                let t = choose|t: usize| all[i as int].members.contains(t) && u == f(t);
                assert(crew.contains(t));
            }
            if crew.map(f).contains(u) {
                let t = choose|t: usize| crew.contains(t) && u == f(t);
                let i = choose|i: usize| #[trigger]
                    block.contains(i) && i < all.len() && all[i as int].members.contains(t);
                assert(named[i as int] == renamed_team(f, all[i as int]));
                assert(named[i as int].members.contains(u));
            }
        }
        assert(crew_of(named, block) =~= crew.map(f));
    }
    assert(bundles(named, parts) =~= renamed_teams(f, bundles(all, parts))) by {
        assert forall|i: int| 0 <= i < parts.len() implies bundles(named, parts)[i]
            == renamed_teams(f, bundles(all, parts))[i] by {
            assert(bundle(named, parts[i]) == renamed_team(f, bundle(all, parts[i])));
        }
    }
}

proof fn lemma_hunted_renamed(
    f: spec_fn(usize) -> usize,
    whole: Set<usize>,
    rates: Rates,
    now: u64,
    all: Seq<Team>,
    initial: Seq<Team>,
)
    requires
        injects(f, whole),
        within(all, whole),
        within(initial, whole),
    ensures
        hunted(rates, now, renamed_teams(f, all), renamed_teams(f, initial)) == hunted(
            rates,
            now,
            all,
            initial,
        ),
{
    let named = renamed_teams(f, all);
    let start = renamed_teams(f, initial);
    lemma_shapes_renamed(f, all);
    lemma_shapes_renamed(f, initial);
    assert forall|i: int| 0 <= i < initial.len() implies holders(named, (#[trigger] start[i]).members)
        == holders(all, initial[i].members) by {
        let crew = initial[i].members;
        assert(start[i].members == crew.map(f));
        assert forall|k: usize| #[trigger] holders(named, crew.map(f)).contains(k) <==> holders(
            all,
            crew,
        ).contains(k) by {
            if k < all.len() {
                assert(named[k as int] == renamed_team(f, all[k as int]));
                lemma_map_intersect(f, whole, all[k as int].members, crew);
                lemma_map_inhabited(f, all[k as int].members.intersect(crew));
            }
        }
        assert(holders(named, crew.map(f)) =~= holders(all, crew));
    }
    assert(opening(rates, named, start).best =~= opening(rates, all, initial).best);
}

/// The competing plan under new names, and what it takes to make it.
proof fn lemma_alternative_renamed(
    f: spec_fn(usize) -> usize,
    whole: Set<usize>,
    rates: Rates,
    now: u64,
    all: Seq<Team>,
)
    requires
        injects(f, whole),
        within(all, whole),
        within(greedy(rates, now, all), whole),
        all.len() <= usize::MAX,
    ensures
        alternative(rates, now, renamed_teams(f, all)) == renamed_teams(
            f,
            alternative(rates, now, all),
        ),
        together(rates, now, renamed_teams(f, all)) == together(rates, now, all),
        nodes(rates, now, renamed_teams(f, all), greedy(rates, now, renamed_teams(f, all))) == nodes(
            rates,
            now,
            all,
            greedy(rates, now, all),
        ),
        stopped(rates, now, renamed_teams(f, all), greedy(rates, now, renamed_teams(f, all)))
            == stopped(rates, now, all, greedy(rates, now, all)),
{
    let none = Seq::<Team>::empty();
    let start = greedy(rates, now, all);
    lemma_shapes_renamed(f, all);
    assert(renamed_teams(f, none) =~= none);
    lemma_inserted_renamed(f, rates, now, none, all);
    lemma_shapes_renamed(f, start);
    lemma_hunted_renamed(f, whole, rates, now, all, start);
    lemma_bundles_renamed(f, all, seq![upto(all.len())]);
    lemma_bundles_renamed(f, all, best_parts(rates, now, shapes(all)));
    lemma_bundles_renamed(f, all, index_sets(hunted(rates, now, all, start).best));
}

/// Members of arranged teams are among what is arranged.
pub proof fn lemma_arranged_within(items: Map<usize, Shape>, teams: Seq<Team>, whole: Set<usize>)
    requires
        arranges(items, teams, whole),
    ensures
        within(teams, whole),
{
    assert forall|i: int| 0 <= i < teams.len() implies (#[trigger] teams[i]).members.subset_of(
        whole,
    ) by {
        assert forall|t: usize| teams[i].members.contains(t) implies whole.contains(t) by {
            assert(crate::team::crews(teams)[i].contains(t));
        }
    }
}

/// The patterns, and the plan that places them one by one, have members among the jobs.
proof fn lemma_all_within(rates: Rates, now: u64, items: Map<usize, Shape>, previous: Seq<Team>)
    requires
        ready(rates, now, items, previous),
    ensures
        within(patterns(items, items.dom()), items.dom()),
        within(greedy(rates, now, patterns(items, items.dom())), items.dom()),
        patterns(items, items.dom()).len() <= usize::MAX,
{
    let all = patterns(items, items.dom());
    crate::plan_laws::lemma_all(rates, now, items);
    lemma_arranged_within(items, all, items.dom());
    crate::plan_laws::lemma_greedy(rates, now, all);
    crate::plan_laws::lemma_bundles_arrange(
        items,
        all,
        items.dom(),
        crate::plan_laws::greedy_parts(rates, now, all),
    );
    lemma_arranged_within(items, greedy(rates, now, all), items.dom());
}

/// A plan under new names is the plan for the renamed jobs, at the same effort.
pub proof fn lemma_plan_renamed(
    f: spec_fn(usize) -> usize,
    whole: Set<usize>,
    rates: Rates,
    now: u64,
    policy: Policy,
    items: Map<usize, Shape>,
    previous: Seq<Team>,
)
    requires
        injects(f, whole),
        items.dom().subset_of(whole),
        within(previous, whole),
        ready(rates, now, items, previous),
    ensures
        plan(rates, now, policy, renamed(f, items), renamed_teams(f, previous)) == renamed_teams(
            f,
            plan(rates, now, policy, items, previous),
        ),
        effort(rates, now, policy, renamed(f, items), renamed_teams(f, previous)) == effort(
            rates,
            now,
            policy,
            items,
            previous,
        ),
{
    reveal(plan);
    reveal(effort);
    let all = patterns(items, items.dom());
    let named = renamed_teams(f, all);
    let stable = carried(rates, now, items, previous);
    let rival = alternative(rates, now, all);
    assert(renamed(f, items).dom() == items.dom().map(f)) by {
        lemma_renamed(f, items);
    }
    assert(carried(rates, now, renamed(f, items), renamed_teams(f, previous)) == renamed_teams(
        f,
        stable,
    )) by {
        lemma_carried_renamed(f, whole, rates, now, items, previous);
    }
    assert(patterns(renamed(f, items), renamed(f, items).dom()) == named) by {
        lemma_patterns_renamed(f, items, items.dom());
    }
    assert(within(all, items.dom()) && within(greedy(rates, now, all), items.dom()) && all.len()
        <= usize::MAX) by {
        lemma_all_within(rates, now, items, previous);
    }
    lemma_alternative_renamed(f, items.dom(), rates, now, all);
    lemma_shapes_renamed(f, stable);
    lemma_shapes_renamed(f, all);
    lemma_shapes_renamed(f, rival);
    assert(renamed_teams(f, stable).len() == stable.len());
    assert(named.len() == all.len());
}

} // verus!
