//! A search that stays within its budget finds a best partition.
use vstd::multiset::Multiset;
use vstd::prelude::*;

use crate::bound::lower_bound;
use crate::hunt::{load, slot_shapes, Ground, Hunt, Slot, NODE_BUDGET};
use crate::hunt_laws::{
    index_sets, lemma_options, lemma_reach_floor, lemma_reach_growth, lemma_seconds_permuted,
    lemma_tidy_filled, lemma_tidy_len, lemma_tidy_opened, lemma_visit_proper, slot_lists,
};
use crate::partition::{beats, indexed, seconds};
use crate::shape::{join, lemma_gather_shrinks, Shape};
use crate::team::extra;

verus! {

impl Ground {
    /// No ending from here beats the best score.
    #[verifier::opaque]
    pub open spec fn settled(
        self,
        best_score: (nat, nat),
        pos: nat,
        loads: Multiset<Shape>,
        secs: nat,
    ) -> bool {
        forall|end: (nat, nat)| #[trigger]
            self.reach(pos, loads, secs, end) ==> !beats(end, best_score)
    }

    /// Every ending from here is an ending of the whole search.
    #[verifier::opaque]
    pub open spec fn descends(self, pos: nat, loads: Multiset<Shape>, secs: nat) -> bool {
        forall|end: (nat, nat)| #[trigger]
            self.reach(pos, loads, secs, end) ==> self.reach(0, Multiset::empty(), 0, end)
    }

    /// Where the search has been from `from` on, nothing beats the best score.
    #[verifier::opaque]
    pub open spec fn explored(self, h: Hunt, from: nat) -> bool {
        forall|p: nat, q: Seq<Shape>|
            p >= from && h.seen.contains((p, #[trigger] q.to_multiset())) ==> #[trigger] self.settled(
                h.best_score,
                p,
                q.to_multiset(),
                seconds(self.rates, q),
            )
    }

    /// Only positions from `from` on are newly seen.
    #[verifier::opaque]
    pub open spec fn looked(self, before: Hunt, after: Hunt, from: nat) -> bool {
        forall|p: nat, loads: Multiset<Shape>| #[trigger]
            after.seen.contains((p, loads)) ==> before.seen.contains((p, loads)) || p >= from
    }
}

proof fn lemma_settled_better(
    g: Ground,
    old: (nat, nat),
    new: (nat, nat),
    pos: nat,
    loads: Multiset<Shape>,
    secs: nat,
)
    requires
        g.settled(old, pos, loads, secs),
        !beats(old, new),
    ensures
        g.settled(new, pos, loads, secs),
{
    reveal(Ground::settled);
}

/// At the bound there is nothing left to find.
proof fn lemma_settled_at_bound(g: Ground, pos: nat, loads: Multiset<Shape>, secs: nat)
    requires
        g.sound(),
        g.bound == lower_bound(g.rates, g.now, g.shapes),
        g.descends(pos, loads, secs),
    ensures
        g.settled(g.bound, pos, loads, secs),
{
    reveal(Ground::settled);
    reveal(Ground::descends);
    assert forall|end: (nat, nat)| #[trigger] g.reach(pos, loads, secs, end) implies !beats(
        end,
        g.bound,
    ) by {
        lemma_reach_floor(g, end);
    }
}

proof fn lemma_tidy_inside(g: Ground, pos: nat, slots: Seq<Slot>, secs: nat, covered: Set<usize>)
    requires
        g.sound(),
        pos <= g.order.len(),
        g.tidy(pos, slots, secs, covered),
    ensures
        g.inside(load(slots), g.covered(pos)),
        load(slots).len() == slots.len(),
        secs == seconds(g.rates, slot_shapes(slots)),
        covered == g.covered(pos),
{
    broadcast use vstd::seq_lib::group_to_multiset_ensures;

    reveal(Ground::tidy);
    let items = indexed(g.shapes);
    let parts = index_sets(slot_lists(slots));
    assert(g.assigned(pos).finite());
    assert forall|base: Shape| #[trigger] load(slots).contains(base) implies base.checks.subset_of(
        g.covered(pos),
    ) by {
        assert(slot_shapes(slots).contains(base));
        let i = choose|i: int| 0 <= i < slots.len() && slot_shapes(slots)[i] == base;
        assert(parts[i] == slots[i].patterns.to_set());
        assert(parts[i].subset_of(g.assigned(pos))) by {
            assert forall|t: usize| parts[i].contains(t) implies g.assigned(pos).contains(t) by {}
        }
        lemma_gather_shrinks(g.rates, items, parts[i], g.assigned(pos));
        assert(slots[i].shape == base);
    }
    assert(slot_shapes(slots).to_multiset().len() == slot_shapes(slots).len());
}

/// Branches that cannot win are cut.
proof fn lemma_settled_hopeless(
    g: Ground,
    best_score: (nat, nat),
    pos: nat,
    slots: Seq<Slot>,
    secs: nat,
    covered: Set<usize>,
)
    requires
        g.sound(),
        g.bound == lower_bound(g.rates, g.now, g.shapes),
        pos <= g.order.len(),
        g.tidy(pos, slots, secs, covered),
        g.descends(pos, load(slots), secs),
        g.hopeless(best_score, slots.len(), secs, covered),
    ensures
        g.settled(best_score, pos, load(slots), secs),
{
    reveal(Ground::settled);
    reveal(Ground::descends);
    lemma_tidy_inside(g, pos, slots, secs, covered);
    assert forall|end: (nat, nat)| #[trigger] g.reach(pos, load(slots), secs, end) implies !beats(
        end,
        best_score,
    ) by {
        lemma_reach_floor(g, end);
        lemma_reach_growth(g, pos, load(slots), secs, end);
    }
}

/// Opening one machine too many cannot win.
proof fn lemma_settled_crowded(
    g: Ground,
    best_score: (nat, nat),
    pos: nat,
    slots: Seq<Slot>,
    secs: nat,
    covered: Set<usize>,
)
    requires
        g.sound(),
        pos <= g.order.len(),
        g.tidy(pos, slots, secs, covered),
        slots.len() > best_score.0,
    ensures
        g.settled(best_score, pos, load(slots), secs),
{
    reveal(Ground::settled);
    lemma_tidy_inside(g, pos, slots, secs, covered);
    assert forall|end: (nat, nat)| #[trigger] g.reach(pos, load(slots), secs, end) implies !beats(
        end,
        best_score,
    ) by {
        lemma_reach_growth(g, pos, load(slots), secs, end);
    }
}

proof fn lemma_load_filled(g: Ground, slots: Seq<Slot>, pos: nat, i: usize)
    requires
        i < slots.len(),
    ensures
        load(slots).contains(slots[i as int].shape),
        load(g.filled(slots, pos, i)) == load(slots).remove(slots[i as int].shape).insert(
            join(slots[i as int].shape, g.job(pos)),
        ),
{
    broadcast use vstd::seq_lib::group_to_multiset_ensures;
    broadcast use vstd::multiset::group_multiset_axioms;

    let q = slot_shapes(slots);
    let base = slots[i as int].shape;
    let new = join(base, g.job(pos));
    assert(q[i as int] == base);
    assert(q.contains(base));
    assert(slot_shapes(g.filled(slots, pos, i)) =~= q.update(i as int, new));
    assert(q.update(i as int, new).to_multiset() =~= q.to_multiset().remove(base).insert(new));
}

proof fn lemma_load_opened(g: Ground, slots: Seq<Slot>, pos: nat)
    ensures
        load(g.opened(slots, pos)) == load(slots).insert(g.job(pos)),
{
    broadcast use vstd::seq_lib::group_to_multiset_ensures;

    let q = slot_shapes(slots);
    assert(slot_shapes(g.opened(slots, pos)) =~= q.push(g.job(pos)));
    assert(q.push(g.job(pos)).to_multiset() =~= q.to_multiset().insert(g.job(pos)));
}

proof fn lemma_descends_filled(g: Ground, slots: Seq<Slot>, pos: nat, secs: nat, i: usize)
    requires
        pos < g.order.len(),
        i < slots.len(),
        g.rates.fits(join(slots[i as int].shape, g.job(pos)), g.now),
        g.descends(pos, load(slots), secs),
    ensures
        g.descends(
            pos + 1,
            load(g.filled(slots, pos, i)),
            (secs + extra(g.rates, slots[i as int].shape, g.job(pos))) as nat,
        ),
{
    reveal(Ground::descends);
    lemma_load_filled(g, slots, pos, i);
    let more = (secs + extra(g.rates, slots[i as int].shape, g.job(pos))) as nat;
    assert forall|end: (nat, nat)| #[trigger]
        g.reach(pos + 1, load(g.filled(slots, pos, i)), more, end) implies g.reach(
        0,
        Multiset::empty(),
        0,
        end,
    ) by {
        assert(load(slots).contains(slots[i as int].shape));
        assert(g.reach(pos, load(slots), secs, end));
    }
}

proof fn lemma_descends_opened(g: Ground, slots: Seq<Slot>, pos: nat, secs: nat)
    requires
        pos < g.order.len(),
        g.descends(pos, load(slots), secs),
    ensures
        g.descends(
            pos + 1,
            load(g.opened(slots, pos)),
            secs + g.rates.duration(g.job(pos).checks),
        ),
{
    reveal(Ground::descends);
    lemma_load_opened(g, slots, pos);
    let more = secs + g.rates.duration(g.job(pos).checks);
    assert forall|end: (nat, nat)| #[trigger]
        g.reach(pos + 1, load(g.opened(slots, pos)), more, end) implies g.reach(
        0,
        Multiset::empty(),
        0,
        end,
    ) by {
        assert(g.reach(pos, load(slots), secs, end));
    }
}

/// The first `k` options have nothing left that beats the best score.
#[verifier::opaque]
pub open spec fn tried(
    g: Ground,
    best_score: (nat, nat),
    pos: nat,
    slots: Seq<Slot>,
    secs: nat,
    k: nat,
) -> bool {
    forall|j: int|
        0 <= j < k && j < g.options(slots, pos).len() ==> g.settled(
            best_score,
            pos + 1,
            load(g.filled(slots, pos, #[trigger] g.options(slots, pos)[j])),
            (secs + extra(
                g.rates,
                slots[g.options(slots, pos)[j] as int].shape,
                g.job(pos),
            )) as nat,
        )
}

/// With every option and the own machine tried, the position is settled.
proof fn lemma_settled_by_tries(
    g: Ground,
    best_score: (nat, nat),
    pos: nat,
    slots: Seq<Slot>,
    secs: nat,
    k: nat,
)
    requires
        g.sound(),
        pos < g.order.len(),
        slots.len() <= usize::MAX,
        k >= g.options(slots, pos).len(),
        tried(g, best_score, pos, slots, secs, k),
        g.settled(
            best_score,
            pos + 1,
            load(g.opened(slots, pos)),
            secs + g.rates.duration(g.job(pos).checks),
        ),
    ensures
        g.settled(best_score, pos, load(slots), secs),
{
    reveal(Ground::settled);
    reveal(tried);
    let job = g.job(pos);
    let options = g.options(slots, pos);
    lemma_load_opened(g, slots, pos);
    lemma_options(g, slots, pos);
    assert forall|end: (nat, nat)| #[trigger] g.reach(pos, load(slots), secs, end) implies !beats(
        end,
        best_score,
    ) by {
        if !g.reach(
            pos + 1,
            load(slots).insert(job),
            secs + g.rates.duration(job.checks),
            end,
        ) {
            let base = choose|base: Shape| #[trigger]
                load(slots).contains(base) && g.rates.fits(join(base, job), g.now) && g.reach(
                    pos + 1,
                    load(slots).remove(base).insert(join(base, job)),
                    (secs + extra(g.rates, base, job)) as nat,
                    end,
                );
            lemma_first_slot(slots, base);
            let i = choose|i: usize| first_slot(slots, base, i);
            assert(g.openings(slots, pos).contains(i));
            assert(options.to_set().contains(i));
            let j = choose|j: int| 0 <= j < options.len() && options[j] == i;
            lemma_load_filled(g, slots, pos, i);
            assert(g.settled(
                best_score,
                pos + 1,
                load(g.filled(slots, pos, options[j])),
                (secs + extra(g.rates, slots[options[j] as int].shape, job)) as nat,
            ));
        }
    }
}

/// `i` is the first machine with this demand.
spec fn first_slot(slots: Seq<Slot>, base: Shape, i: usize) -> bool {
    &&& i < slots.len()
    &&& slots[i as int].shape == base
    &&& forall|j: int| 0 <= j < i ==> (#[trigger] slots[j]).shape != base
}

proof fn lemma_first_slot(slots: Seq<Slot>, base: Shape)
    requires
        slots.len() <= usize::MAX,
        load(slots).contains(base),
    ensures
        exists|i: usize| first_slot(slots, base, i),
{
    broadcast use vstd::seq_lib::group_to_multiset_ensures;

    assert(slot_shapes(slots).contains(base));
    let i = choose|i: int| 0 <= i < slots.len() && slot_shapes(slots)[i] == base;
    assert(slots[i].shape == base);
    lemma_first_slot_before(slots, base, i);
}

proof fn lemma_first_slot_before(slots: Seq<Slot>, base: Shape, i: int)
    requires
        0 <= i < slots.len() <= usize::MAX,
        slots[i].shape == base,
    ensures
        exists|k: usize| first_slot(slots, base, k),
    decreases i,
{
    if exists|j: int| 0 <= j < i && (#[trigger] slots[j]).shape == base {
        let j = choose|j: int| 0 <= j < i && (#[trigger] slots[j]).shape == base;
        lemma_first_slot_before(slots, base, j);
    } else {
        assert(first_slot(slots, base, i as usize));
    }
}

/// A visit within budget leaves nothing behind that beats the best score.
pub proof fn lemma_visit_settles(
    g: Ground,
    h: Hunt,
    pos: nat,
    slots: Seq<Slot>,
    secs: nat,
    covered: Set<usize>,
)
    requires
        g.sound(),
        g.bound == lower_bound(g.rates, g.now, g.shapes),
        pos <= g.order.len(),
        g.tidy(pos, slots, secs, covered),
        g.proper(h.best, h.best_score),
        g.descends(pos, load(slots), secs),
        g.explored(h, pos),
        !h.exhausted,
    ensures
        g.looked(h, g.visit(h, pos, slots, secs, covered), pos),
        g.visit(h, pos, slots, secs, covered).exhausted || (g.settled(
            g.visit(h, pos, slots, secs, covered).best_score,
            pos,
            load(slots),
            secs,
        ) && g.explored(g.visit(h, pos, slots, secs, covered), pos)),
    decreases g.order.len() - pos, 1int, 0int,
{
    let after = g.visit(h, pos, slots, secs, covered);
    lemma_visit_proper(g, h, pos, slots, secs, covered);
    lemma_tidy_inside(g, pos, slots, secs, covered);
    if h.best_score == g.bound {
        lemma_settled_at_bound(g, pos, load(slots), secs);
        reveal(Ground::looked);
    } else if h.nodes >= NODE_BUDGET {
        reveal(Ground::looked);
    } else if g.hopeless(h.best_score, slots.len(), secs, covered) {
        lemma_settled_hopeless(g, h.best_score, pos, slots, secs, covered);
        reveal(Ground::looked);
        reveal(Ground::explored);
    } else if pos == g.order.len() {
        reveal(Ground::settled);
        reveal(Ground::looked);
        reveal(Ground::explored);
        assert forall|p: nat, q: Seq<Shape>|
            p >= pos && after.seen.contains(
                (p, #[trigger] q.to_multiset()),
            ) implies #[trigger] g.settled(
            after.best_score,
            p,
            q.to_multiset(),
            seconds(g.rates, q),
        ) by {
            assert(h.seen.contains((p, q.to_multiset())));
            assert(g.settled(h.best_score, p, q.to_multiset(), seconds(g.rates, q)));
        }
    } else if h.seen.contains((pos, load(slots))) {
        reveal(Ground::looked);
        reveal(Ground::explored);
        assert(g.settled(
            h.best_score,
            pos,
            slot_shapes(slots).to_multiset(),
            seconds(g.rates, slot_shapes(slots)),
        ));
    } else {
        let marked = Hunt {
            seen: h.seen.insert((pos, load(slots))),
            nodes: h.nodes + 1,
            ..h
        };
        assert(g.explored(marked, pos + 1)) by {
            reveal(Ground::explored);
        }
        assert(tried(g, marked.best_score, pos, slots, secs, 0)) by {
            reveal(tried);
        }
        lemma_tries_settles(g, marked, pos, slots, secs, covered, 0);
        assert(g.looked(h, after, pos)) by {
            reveal(Ground::looked);
        }
        if !after.exhausted {
            assert(g.explored(after, pos)) by {
                reveal(Ground::explored);
                reveal(Ground::looked);
                assert forall|p: nat, q: Seq<Shape>|
                    p >= pos && after.seen.contains(
                (p, #[trigger] q.to_multiset()),
            ) implies #[trigger] g.settled(
                    after.best_score,
                    p,
                    q.to_multiset(),
                    seconds(g.rates, q),
                ) by {
                    if p == pos {
                        assert(marked.seen.contains((p, q.to_multiset())));
                        if q.to_multiset() == load(slots) {
                            lemma_seconds_permuted(g.rates, q, slot_shapes(slots));
                        } else {
                            assert(h.seen.contains((p, q.to_multiset())));
                            lemma_settled_better(
                                g,
                                h.best_score,
                                after.best_score,
                                p,
                                q.to_multiset(),
                                seconds(g.rates, q),
                            );
                        }
                    }
                }
            }
        }
    }
}

pub proof fn lemma_tries_settles(
    g: Ground,
    h: Hunt,
    pos: nat,
    slots: Seq<Slot>,
    secs: nat,
    covered: Set<usize>,
    k: nat,
)
    requires
        g.sound(),
        g.bound == lower_bound(g.rates, g.now, g.shapes),
        pos < g.order.len(),
        g.tidy(pos, slots, secs, covered),
        g.proper(h.best, h.best_score),
        g.descends(pos, load(slots), secs),
        g.explored(h, pos + 1),
        !h.exhausted,
        tried(g, h.best_score, pos, slots, secs, k),
    ensures
        g.looked(h, g.tries(h, pos, slots, secs, covered, k), pos + 1),
        g.tries(h, pos, slots, secs, covered, k).exhausted || (g.settled(
            g.tries(h, pos, slots, secs, covered, k).best_score,
            pos,
            load(slots),
            secs,
        ) && g.explored(g.tries(h, pos, slots, secs, covered, k), pos + 1)),
    decreases g.order.len() - pos, 0int, g.options(slots, pos).len() - k,
{
    let options = g.options(slots, pos);
    let wider = covered.union(g.job(pos).checks);
    lemma_tidy_len(g, pos, slots, secs, covered);
    lemma_options(g, slots, pos);
    if k < options.len() {
        let i = options[k as int];
        let more = (secs + extra(g.rates, slots[i as int].shape, g.job(pos))) as nat;
        let child = g.filled(slots, pos, i);
        assert(g.openings(slots, pos).contains(i));
        lemma_tidy_filled(g, pos, slots, secs, covered, i);
        lemma_descends_filled(g, slots, pos, secs, i);
        lemma_visit_settles(g, h, pos + 1, child, more, wider);
        lemma_visit_proper(g, h, pos + 1, child, more, wider);
        let after = g.visit(h, pos + 1, child, more, wider);
        if after.exhausted {
        } else if after.best_score == g.bound {
            lemma_settled_at_bound(g, pos, load(slots), secs);
        } else {
            assert(tried(g, after.best_score, pos, slots, secs, k + 1)) by {
                reveal(tried);
                assert forall|j: int| 0 <= j < k + 1 && j < options.len() implies g.settled(
                    after.best_score,
                    pos + 1,
                    load(g.filled(slots, pos, #[trigger] options[j])),
                    (secs + extra(
                        g.rates,
                        slots[options[j] as int].shape,
                        g.job(pos),
                    )) as nat,
                ) by {
                    if j < k {
                        lemma_settled_better(
                            g,
                            h.best_score,
                            after.best_score,
                            pos + 1,
                            load(g.filled(slots, pos, options[j])),
                            (secs + extra(
                                g.rates,
                                slots[options[j] as int].shape,
                                g.job(pos),
                            )) as nat,
                        );
                    }
                }
            }
            lemma_tries_settles(g, after, pos, slots, secs, covered, k + 1);
            reveal(Ground::looked);
        }
    } else {
        let more = secs + g.rates.duration(g.job(pos).checks);
        let child = g.opened(slots, pos);
        lemma_tidy_opened(g, pos, slots, secs, covered);
        if slots.len() < h.best_score.0 {
            lemma_descends_opened(g, slots, pos, secs);
            lemma_visit_settles(g, h, pos + 1, child, more, wider);
            lemma_visit_proper(g, h, pos + 1, child, more, wider);
            let after = g.visit(h, pos + 1, child, more, wider);
            if !after.exhausted {
                assert(tried(g, after.best_score, pos, slots, secs, k)) by {
                    reveal(tried);
                    assert forall|j: int| 0 <= j < k && j < options.len() implies g.settled(
                        after.best_score,
                        pos + 1,
                        load(g.filled(slots, pos, #[trigger] options[j])),
                        (secs + extra(
                            g.rates,
                            slots[options[j] as int].shape,
                            g.job(pos),
                        )) as nat,
                    ) by {
                        lemma_settled_better(
                            g,
                            h.best_score,
                            after.best_score,
                            pos + 1,
                            load(g.filled(slots, pos, options[j])),
                            (secs + extra(
                                g.rates,
                                slots[options[j] as int].shape,
                                g.job(pos),
                            )) as nat,
                        );
                    }
                }
                lemma_settled_by_tries(g, after.best_score, pos, slots, secs, k);
            }
        } else {
            lemma_settled_crowded(g, h.best_score, pos + 1, child, more, wider);
            lemma_settled_by_tries(g, h.best_score, pos, slots, secs, k);
            reveal(Ground::looked);
        }
    }
}

/// A whole search within budget ends with a score that no ending beats.
pub proof fn lemma_search_best(g: Ground, h: Hunt)
    requires
        g.sound(),
        g.bound == lower_bound(g.rates, g.now, g.shapes),
        g.proper(h.best, h.best_score),
        h.seen == Set::<(nat, Multiset<Shape>)>::empty(),
        !h.exhausted,
        !g.visit(h, 0, Seq::empty(), 0, Set::empty()).exhausted,
    ensures
        forall|end: (nat, nat)| #[trigger]
            g.reach(0, Multiset::empty(), 0, end) ==> !beats(
                end,
                g.visit(h, 0, Seq::empty(), 0, Set::empty()).best_score,
            ),
{
    let none = Seq::<Slot>::empty();
    crate::hunt_laws::lemma_tidy_start(g);
    assert(load(none) =~= Multiset::empty()) by {
        broadcast use vstd::seq_lib::group_to_multiset_ensures;

        assert(slot_shapes(none) =~= Seq::<Shape>::empty());
    }
    reveal(Ground::descends);
    reveal(Ground::explored);
    lemma_visit_settles(g, h, 0, none, 0, Set::empty());
    reveal(Ground::settled);
}

} // verus!
