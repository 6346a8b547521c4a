//! Plans are the best there are for the waiting jobs, within the search limits.
use vstd::prelude::*;

use crate::bound::{lemma_lower_bound, total};
use crate::cover::{best, full, lemma_best_found, lemma_best_good, lemma_best_optimal};
use crate::hunt::{load, Ground, Hunt, Slot, NODE_BUDGET, PATTERN_LIMIT};
use crate::listing::{lemma_upto, upto};
use crate::partition::{
    beats, feasible, first_start, gathered, indexed, inhabited, lemma_seconds_push, score, seconds,
    splits,
};
use crate::plan::{
    alternative, carried, effort, field, greedy, opening, plan, prefers, ready, stopped, together,
    unquestioned, EXACT_PATTERN_LIMIT,
};
use crate::plan_laws::{
    greedy_parts, lemma_all, lemma_alternative, lemma_bundles_arrange, lemma_carried, lemma_greedy,
    lemma_improved,
};
use crate::policy::Policy;
use crate::shape::{gather, lemma_gather_urgent, Rates, Shape};
use crate::team::{
    arranges, bundle, crews, extra, lemma_patterns_asked, on_time, patterns, shapes, Team,
};

verus! {

/// A plan gives every waiting job one place, with nobody late. It is the carried plan
/// unless the policy prefers the score of the new one.
pub proof fn lemma_plan(
    rates: Rates,
    now: u64,
    policy: Policy,
    items: Map<usize, Shape>,
    previous: Seq<Team>,
)
    requires
        ready(rates, now, items, previous),
    ensures
        arranges(items, plan(rates, now, policy, items, previous), items.dom()),
        on_time(rates, plan(rates, now, policy, items, previous), now),
        plan(rates, now, policy, items, previous).len() <= items.dom().len(),
        inhabited(items.dom()) ==> plan(rates, now, policy, items, previous).len() > 0,
        plan(rates, now, policy, items, previous) == carried(rates, now, items, previous)
            || prefers(
            policy,
            score(rates, shapes(plan(rates, now, policy, items, previous))),
            score(rates, shapes(carried(rates, now, items, previous))),
        ),
{
    reveal(plan);
    let all = patterns(items, items.dom());
    let stable = carried(rates, now, items, previous);
    let made = plan(rates, now, policy, items, previous);
    lemma_carried(rates, now, items, previous);
    lemma_all(rates, now, items);
    if made != stable {
        assert(stable.len() > 1);
        assert(inhabited(crews(stable)[0]));
        let t = choose|t: usize| #[trigger] crews(stable)[0].contains(t);
        assert(items.dom().contains(t));
        let parts = lemma_alternative(rates, now, items);
        lemma_bundles_arrange(items, all, items.dom(), parts);
        assert forall|i: int| 0 <= i < made.len() implies rates.fits(
            (#[trigger] made[i]).shape,
            now,
        ) by {
            assert(made[i] == bundle(all, parts[i]));
        }
    }
    crate::partition::lemma_splits_len(crews(made), items.dom());
    if inhabited(items.dom()) {
        let t = choose|t: usize| #[trigger] items.dom().contains(t);
        let i = choose|i: int| 0 <= i < crews(made).len() && #[trigger] crews(made)[i].contains(t);
    }
}

// Pattern compression loses nothing.

/// The job that makes a pattern as urgent as it is.
pub open spec fn leader(items: Map<usize, Shape>, tokens: Set<usize>, shape: Shape) -> usize {
    choose|t: usize| #[trigger] tokens.contains(t) && items[t] == shape
}

/// The patterns led by a job in the block.
pub open spec fn led(items: Map<usize, Shape>, block: Set<usize>) -> Set<usize> {
    Set::new(
        |i: usize|
            i < patterns(items, items.dom()).len() && block.contains(
                leader(items, items.dom(), patterns(items, items.dom())[i as int].shape),
            ),
    )
}

/// The blocks of patterns that the first `k` blocks of jobs lead, without empty ones.
pub open spec fn squeezed(items: Map<usize, Shape>, blocks: Seq<Set<usize>>, k: nat) -> Seq<
    Set<usize>,
>
    decreases k,
{
    if k == 0 {
        Seq::empty()
    } else {
        let rest = squeezed(items, blocks, (k - 1) as nat);
        let block = led(items, blocks[k - 1]);
        if inhabited(block) {
            rest.push(block)
        } else {
            rest
        }
    }
}

/// Patterns ask for no more than the block that leads them.
proof fn lemma_led(rates: Rates, items: Map<usize, Shape>, block: Set<usize>)
    requires
        items.dom().finite(),
        items.dom().len() <= usize::MAX,
        block.subset_of(items.dom()),
        inhabited(led(items, block)),
    ensures
        gather(indexed(shapes(patterns(items, items.dom()))), led(items, block)).checks.subset_of(
            gather(items, block).checks,
        ),
        gather(items, block).deadline <= gather(
            indexed(shapes(patterns(items, items.dom()))),
            led(items, block),
        ).deadline,
        rates.duration(
            gather(indexed(shapes(patterns(items, items.dom()))), led(items, block)).checks,
        ) <= rates.duration(gather(items, block).checks),
        rates.latest(gather(items, block)) <= rates.latest(
            gather(indexed(shapes(patterns(items, items.dom()))), led(items, block)),
        ),
{
    let all = patterns(items, items.dom());
    let s = shapes(all);
    let part = led(items, block);
    vstd::set_lib::lemma_set_subset_finite(items.dom(), block);
    crate::team::lemma_patterns_arrange(items, items.dom());
    lemma_upto(all.len());
    assert(part.subset_of(upto(all.len())));
    vstd::set_lib::lemma_set_subset_finite(upto(all.len()), part);
    let p = choose|p: usize| #[trigger] part.contains(p);
    assert(part.contains(p));
    lemma_gather_urgent(indexed(s), part);
    assert forall|i: usize| #[trigger] part.contains(i) implies {
        let t = leader(items, items.dom(), all[i as int].shape);
        block.contains(t) && items[t] == indexed(s)[i]
    } by {
        lemma_patterns_asked(items, items.dom(), i as int);
    }
    assert(block.contains(leader(items, items.dom(), all[p as int].shape)));
    assert(block.len() > 0);
    lemma_gather_urgent(items, block);
    let a = gather(indexed(s), part);
    let b = gather(items, block);
    assert forall|c: usize| a.checks.contains(c) implies b.checks.contains(c) by {
        let i = choose|i: usize| #[trigger] part.contains(i) && indexed(s)[i].checks.contains(c);
        let t = leader(items, items.dom(), all[i as int].shape);
        assert(block.contains(t) && items[t].checks.contains(c));
    }
    let i = choose|i: usize| #[trigger] part.contains(i) && indexed(s)[i].deadline == a.deadline;
    let t = leader(items, items.dom(), all[i as int].shape);
    assert(block.contains(t));
    crate::shape::lemma_work_monotone(rates, a.checks, b.checks);
}

/// One more batch may have to start first.
proof fn lemma_first_push(rates: Rates, s: Seq<Shape>, last: Shape)
    ensures
        first_start(rates, s.push(last)) == if rates.latest(last) <= first_start(rates, s) {
            rates.latest(last)
        } else {
            first_start(rates, s)
        },
{
    assert(s.push(last).drop_last() =~= s);
}

proof fn lemma_squeezed(
    rates: Rates,
    now: u64,
    items: Map<usize, Shape>,
    blocks: Seq<Set<usize>>,
    k: nat,
)
    requires
        items.dom().finite(),
        items.dom().len() <= usize::MAX,
        splits(blocks, items.dom()),
        feasible(rates, items, blocks, now),
        k <= blocks.len(),
    ensures
        squeezed(items, blocks, k).len() <= k,
        feasible(
            rates,
            indexed(shapes(patterns(items, items.dom()))),
            squeezed(items, blocks, k),
            now,
        ),
        seconds(
            rates,
            gathered(indexed(shapes(patterns(items, items.dom()))), squeezed(items, blocks, k)),
        ) <= seconds(rates, gathered(items, blocks.take(k as int))),
        first_start(rates, gathered(items, blocks.take(k as int))) <= first_start(
            rates,
            gathered(indexed(shapes(patterns(items, items.dom()))), squeezed(items, blocks, k)),
        ),
        forall|j: int|
            0 <= j < squeezed(items, blocks, k).len() ==> inhabited(
                #[trigger] squeezed(items, blocks, k)[j],
            ),
        forall|j: int|
            0 <= j < squeezed(items, blocks, k).len() ==> exists|b: int|
                0 <= b < k && #[trigger] squeezed(items, blocks, k)[j] == led(
                    items,
                    #[trigger] blocks[b],
                ),
        forall|b: int|
            0 <= b < k && inhabited(led(items, #[trigger] blocks[b])) ==> squeezed(
                items,
                blocks,
                k,
            ).contains(led(items, blocks[b])),
        forall|i: int, j: int, x: usize|
            0 <= i < squeezed(items, blocks, k).len() && 0 <= j < squeezed(items, blocks, k).len()
                && #[trigger] squeezed(items, blocks, k)[i].contains(x) && #[trigger] squeezed(
                items,
                blocks,
                k,
            )[j].contains(x) ==> i == j,
    decreases k,
{
    let s = shapes(patterns(items, items.dom()));
    let made = squeezed(items, blocks, k);
    if k == 0 {
        assert(gathered(indexed(s), made) =~= Seq::<Shape>::empty());
    } else {
        let prior = squeezed(items, blocks, (k - 1) as nat);
        let block = blocks[k - 1];
        let part = led(items, block);
        let before = blocks.take(k - 1);
        lemma_squeezed(rates, now, items, blocks, (k - 1) as nat);
        assert(blocks.take(k as int) =~= before.push(block));
        assert(gathered(items, blocks.take(k as int)) =~= gathered(items, before).push(
            gather(items, block),
        ));
        lemma_seconds_push(rates, gathered(items, before), gather(items, block));
        lemma_first_push(rates, gathered(items, before), gather(items, block));
        if inhabited(part) {
            let n = prior.len() as int;
            assert(block.subset_of(items.dom())) by {
                assert forall|t: usize| block.contains(t) implies items.dom().contains(t) by {
                    assert(blocks[k - 1].contains(t));
                }
            }
            lemma_led(rates, items, block);
            assert(rates.fits(gather(items, blocks[k - 1]), now));
            assert(gathered(indexed(s), made) =~= gathered(indexed(s), prior).push(
                gather(indexed(s), part),
            ));
            lemma_seconds_push(rates, gathered(indexed(s), prior), gather(indexed(s), part));
            lemma_first_push(rates, gathered(indexed(s), prior), gather(indexed(s), part));
            assert forall|j: int| 0 <= j < made.len() implies rates.fits(
                gather(indexed(s), #[trigger] made[j]),
                now,
            ) && inhabited(made[j]) by {
                if j < n {
                    assert(made[j] == prior[j]);
                }
            }
            assert forall|j: int| 0 <= j < made.len() implies exists|b: int|
                0 <= b < k && #[trigger] made[j] == led(items, #[trigger] blocks[b]) by {
                if j < n {
                    assert(made[j] == prior[j]);
                    let b = choose|b: int|
                        0 <= b < k - 1 && prior[j] == led(items, #[trigger] blocks[b]);
                    assert(made[j] == led(items, blocks[b]));
                } else {
                    assert(made[j] == led(items, blocks[k - 1]));
                }
            }
            assert forall|b: int|
                0 <= b < k && inhabited(led(items, #[trigger] blocks[b])) implies made.contains(
                led(items, blocks[b]),
            ) by {
                if b < k - 1 {
                    assert(prior.contains(led(items, blocks[b])));
                    let j = choose|j: int|
                        0 <= j < prior.len() && prior[j] == led(items, blocks[b]);
                    assert(made[j] == led(items, blocks[b]));
                } else {
                    assert(made[n] == led(items, blocks[b]));
                }
            }
            assert forall|i: int, j: int, x: usize|
                0 <= i < made.len() && 0 <= j < made.len() && #[trigger] made[i].contains(x)
                    && #[trigger] made[j].contains(x) implies i == j by {
                lemma_led_apart(items, blocks, prior, (k - 1) as nat, x);
                if i < n && j < n {
                    assert(prior[i].contains(x) && prior[j].contains(x));
                } else if i < n {
                    assert(prior[i].contains(x));
                } else if j < n {
                    assert(prior[j].contains(x));
                }
            }
        }
    }
}

/// A pattern led by a block is led by no earlier block.
proof fn lemma_led_apart(
    items: Map<usize, Shape>,
    blocks: Seq<Set<usize>>,
    prior: Seq<Set<usize>>,
    k: nat,
    x: usize,
)
    requires
        splits(blocks, items.dom()),
        k < blocks.len(),
        forall|j: int|
            0 <= j < prior.len() ==> exists|b: int|
                0 <= b < k && #[trigger] prior[j] == led(items, #[trigger] blocks[b]),
    ensures
        led(items, blocks[k as int]).contains(x) ==> forall|j: int|
            0 <= j < prior.len() ==> !#[trigger] prior[j].contains(x),
{
    if led(items, blocks[k as int]).contains(x) {
        let t = leader(items, items.dom(), patterns(items, items.dom())[x as int].shape);
        assert(blocks[k as int].contains(t));
        assert forall|j: int| 0 <= j < prior.len() implies !#[trigger] prior[j].contains(x) by {
            let b = choose|b: int| 0 <= b < k && prior[j] == led(items, #[trigger] blocks[b]);
            if prior[j].contains(x) {
                assert(blocks[b].contains(t));
            }
        }
    }
}

/// Every feasible division of the jobs has a feasible division of the patterns that is
/// at least as good: identical check sets can travel together for free.
pub proof fn lemma_compression(
    rates: Rates,
    now: u64,
    items: Map<usize, Shape>,
    blocks: Seq<Set<usize>>,
) -> (parts: Seq<Set<usize>>)
    requires
        items.dom().finite(),
        items.dom().len() <= usize::MAX,
        splits(blocks, items.dom()),
        feasible(rates, items, blocks, now),
    ensures
        splits(parts, upto(patterns(items, items.dom()).len())),
        feasible(rates, indexed(shapes(patterns(items, items.dom()))), parts, now),
        parts.len() <= blocks.len(),
        seconds(rates, gathered(indexed(shapes(patterns(items, items.dom()))), parts)) <= seconds(
            rates,
            gathered(items, blocks),
        ),
        first_start(rates, gathered(items, blocks)) <= first_start(
            rates,
            gathered(indexed(shapes(patterns(items, items.dom()))), parts),
        ),
{
    let all = patterns(items, items.dom());
    let parts = squeezed(items, blocks, blocks.len());
    lemma_squeezed(rates, now, items, blocks, blocks.len());
    assert(blocks.take(blocks.len() as int) =~= blocks);
    crate::team::lemma_patterns_arrange(items, items.dom());
    assert forall|i: int, x: usize|
        0 <= i < parts.len() && #[trigger] parts[i].contains(x) implies upto(
        all.len(),
    ).contains(x) by {
        assert(inhabited(parts[i]));
        let b = choose|b: int|
            0 <= b < blocks.len() && parts[i] == led(items, #[trigger] blocks[b]);
    }
    assert forall|x: usize| upto(all.len()).contains(x) implies exists|i: int|
        0 <= i < parts.len() && #[trigger] parts[i].contains(x) by {
        lemma_patterns_asked(items, items.dom(), x as int);
        let t = leader(items, items.dom(), all[x as int].shape);
        assert(items.dom().contains(t));
        let b = choose|b: int| 0 <= b < blocks.len() && #[trigger] blocks[b].contains(t);
        assert(led(items, blocks[b]).contains(x));
        assert(parts.contains(led(items, blocks[b])));
        let i = choose|i: int| 0 <= i < parts.len() && parts[i] == led(items, blocks[b]);
        assert(parts[i].contains(x));
    }
    parts
}

/// One block is everything.
pub proof fn lemma_single(blocks: Seq<Set<usize>>, whole: Set<usize>)
    requires
        splits(blocks, whole),
        inhabited(whole),
    ensures
        blocks.len() >= 1,
        blocks.len() == 1 ==> blocks[0] == whole,
{
    let t = choose|t: usize| #[trigger] whole.contains(t);
    let i = choose|i: int| 0 <= i < blocks.len() && #[trigger] blocks[i].contains(t);
    if blocks.len() == 1 {
        assert forall|x: usize| blocks[0].contains(x) <==> whole.contains(x) by {
            if whole.contains(x) {
                let j = choose|j: int| 0 <= j < blocks.len() && #[trigger] blocks[j].contains(x);
            }
        }
        assert(blocks[0] =~= whole);
    }
}

/// No feasible division of the patterns beats the competing plan, unless bounded
/// improvement stopped at one of its limits.
pub proof fn lemma_alternative_best(
    rates: Rates,
    now: u64,
    items: Map<usize, Shape>,
    parts: Seq<Set<usize>>,
)
    requires
        items.dom().finite(),
        items.dom().len() <= usize::MAX,
        inhabited(items.dom()),
        forall|t: usize| #[trigger] items.contains_key(t) ==> rates.fits(items[t], now),
        splits(parts, upto(patterns(items, items.dom()).len())),
        feasible(rates, indexed(shapes(patterns(items, items.dom()))), parts, now),
        together(rates, now, patterns(items, items.dom())) || patterns(items, items.dom()).len()
            <= EXACT_PATTERN_LIMIT || !stopped(
            rates,
            now,
            patterns(items, items.dom()),
            greedy(rates, now, patterns(items, items.dom())),
        ),
    ensures
        !beats(
            score(rates, gathered(indexed(shapes(patterns(items, items.dom()))), parts)),
            score(rates, shapes(alternative(rates, now, patterns(items, items.dom())))),
        ),
{
    let all = patterns(items, items.dom());
    let s = shapes(all);
    let mine = gathered(indexed(s), parts);
    lemma_all(rates, now, items);
    assert forall|i: int| 0 <= i < s.len() implies rates.fits(#[trigger] s[i], now) by {
        assert(rates.fits(all[i].shape, now));
    }
    assert(upto(all.len()).contains(0));
    if together(rates, now, all) {
        lemma_single(parts, upto(all.len()));
        let one = shapes(alternative(rates, now, all));
        assert(one =~= seq![total(s)]);
        if parts.len() == 1 {
            assert(mine =~= one);
        }
    } else if all.len() <= EXACT_PATTERN_LIMIT {
        let mask = full(s.len());
        lemma_best_found(rates, now, s);
        crate::masks::lemma_mask_full(s.len() as u32);
        lemma_best_optimal(rates, now, s, mask, parts);
        lemma_best_good(rates, now, s, mask);
        let cover = best(rates, now, s, mask)->0;
        assert(shapes(alternative(rates, now, all)) =~= crate::cover::cover_shapes(
            s,
            cover.groups,
        ));
    } else {
        lemma_greedy(rates, now, all);
        let _ = lemma_improved(rates, now, all, items.dom(), greedy_parts(rates, now, all));
    }
}

/// A single batch of everything cannot be beaten.
proof fn lemma_one_batch(
    rates: Rates,
    items: Map<usize, Shape>,
    stable: Seq<Team>,
    blocks: Seq<Set<usize>>,
)
    requires
        arranges(items, stable, items.dom()),
        stable.len() == 1,
        splits(blocks, items.dom()),
    ensures
        blocks.len() >= 1,
        !beats(score(rates, gathered(items, blocks)), score(rates, shapes(stable))),
{
    assert(inhabited(crews(stable)[0]));
    let t = choose|t: usize| #[trigger] crews(stable)[0].contains(t);
    assert(items.dom().contains(t));
    assert(inhabited(items.dom()));
    lemma_single(blocks, items.dom());
    lemma_single(crews(stable), items.dom());
    if blocks.len() == 1 {
        assert(stable[0].shape == gather(items, stable[0].members));
        assert(shapes(stable) =~= gathered(items, blocks));
    }
}

/// A plan of at most one batch is carried on.
proof fn lemma_unquestioned(
    rates: Rates,
    now: u64,
    policy: Policy,
    items: Map<usize, Shape>,
    previous: Seq<Team>,
)
    requires
        carried(rates, now, items, previous).len() <= 1,
    ensures
        plan(rates, now, policy, items, previous) == carried(rates, now, items, previous),
{
    reveal(plan);
}

/// The same for divisions of the patterns, where the carried plan has several batches.
proof fn lemma_plan_best_parts(
    rates: Rates,
    now: u64,
    policy: Policy,
    items: Map<usize, Shape>,
    previous: Seq<Team>,
    parts: Seq<Set<usize>>,
)
    requires
        ready(rates, now, items, previous),
        effort(rates, now, policy, items, previous).exhaustions == 0,
        carried(rates, now, items, previous).len() > 1,
        inhabited(items.dom()),
        splits(parts, upto(patterns(items, items.dom()).len())),
        feasible(rates, indexed(shapes(patterns(items, items.dom()))), parts, now),
    ensures
        plan(rates, now, policy, items, previous).len() <= parts.len(),
        policy == Policy::Cost ==> !beats(
            score(rates, gathered(indexed(shapes(patterns(items, items.dom()))), parts)),
            score(rates, shapes(plan(rates, now, policy, items, previous))),
        ),
{
    reveal(plan);
    reveal(effort);
    let all = patterns(items, items.dom());
    let stable = carried(rates, now, items, previous);
    assert(all.len() > 0 && all.len() <= usize::MAX) by {
        lemma_all(rates, now, items);
    }
    lemma_lower_bound(rates, now, shapes(all), parts);
    if !unquestioned(rates, now, policy, all, stable) {
        lemma_alternative_best(rates, now, items, parts);
    }
}

/// The same for divisions of the jobs, where the carried plan has several batches.
proof fn lemma_plan_best_several(
    rates: Rates,
    now: u64,
    policy: Policy,
    items: Map<usize, Shape>,
    previous: Seq<Team>,
    blocks: Seq<Set<usize>>,
)
    requires
        ready(rates, now, items, previous),
        effort(rates, now, policy, items, previous).exhaustions == 0,
        carried(rates, now, items, previous).len() > 1,
        inhabited(items.dom()),
        splits(blocks, items.dom()),
        feasible(rates, items, blocks, now),
    ensures
        plan(rates, now, policy, items, previous).len() <= blocks.len(),
        policy == Policy::Cost ==> !beats(
            score(rates, gathered(items, blocks)),
            score(rates, shapes(plan(rates, now, policy, items, previous))),
        ),
{
    let parts = lemma_compression(rates, now, items, blocks);
    lemma_plan_best_parts(rates, now, policy, items, previous, parts);
}

/// No feasible division of the waiting jobs has fewer batches than the plan, or, where
/// cost counts, as many in less time, unless bounded improvement stopped at one of its
/// limits.
pub proof fn lemma_plan_best(
    rates: Rates,
    now: u64,
    policy: Policy,
    items: Map<usize, Shape>,
    previous: Seq<Team>,
    blocks: Seq<Set<usize>>,
)
    requires
        ready(rates, now, items, previous),
        effort(rates, now, policy, items, previous).exhaustions == 0,
        splits(blocks, items.dom()),
        feasible(rates, items, blocks, now),
    ensures
        plan(rates, now, policy, items, previous).len() <= blocks.len(),
        policy == Policy::Cost ==> !beats(
            score(rates, gathered(items, blocks)),
            score(rates, shapes(plan(rates, now, policy, items, previous))),
        ),
{
    let stable = carried(rates, now, items, previous);
    assert(arranges(items, stable, items.dom())) by {
        lemma_carried(rates, now, items, previous);
    }
    if stable.len() == 0 {
        lemma_unquestioned(rates, now, policy, items, previous);
    } else if stable.len() == 1 {
        lemma_unquestioned(rates, now, policy, items, previous);
        lemma_one_batch(rates, items, stable, blocks);
    } else {
        assert(inhabited(items.dom())) by {
            assert(inhabited(crews(stable)[0]));
            let t = choose|t: usize| #[trigger] crews(stable)[0].contains(t);
            assert(items.dom().contains(t));
        }
        lemma_plan_best_several(rates, now, policy, items, previous, blocks);
    }
}

/// A search stays within its budget.
proof fn lemma_visit_budget(
    g: Ground,
    h: Hunt,
    pos: nat,
    slots: Seq<Slot>,
    secs: nat,
    covered: Set<usize>,
)
    requires
        h.nodes <= NODE_BUDGET,
    ensures
        g.visit(h, pos, slots, secs, covered).nodes <= NODE_BUDGET,
    decreases g.order.len() - pos, 1int, 0int,
{
    if pos < g.order.len() && h.nodes < NODE_BUDGET {
        lemma_tries_budget(
            g,
            Hunt { seen: h.seen.insert((pos, load(slots))), nodes: h.nodes + 1, ..h },
            pos,
            slots,
            secs,
            covered,
            0,
        );
    }
}

proof fn lemma_tries_budget(
    g: Ground,
    h: Hunt,
    pos: nat,
    slots: Seq<Slot>,
    secs: nat,
    covered: Set<usize>,
    k: nat,
)
    requires
        h.nodes <= NODE_BUDGET,
        pos < g.order.len(),
    ensures
        g.tries(h, pos, slots, secs, covered, k).nodes <= NODE_BUDGET,
    decreases g.order.len() - pos, 0int, g.options(slots, pos).len() - k,
{
    let wider = covered.union(g.job(pos).checks);
    if k < g.options(slots, pos).len() {
        let i = g.options(slots, pos)[k as int];
        let more = (secs + extra(g.rates, slots[i as int].shape, g.job(pos))) as nat;
        let after = g.visit(h, pos + 1, g.filled(slots, pos, i), more, wider);
        lemma_visit_budget(g, h, pos + 1, g.filled(slots, pos, i), more, wider);
        lemma_tries_budget(g, after, pos, slots, secs, covered, k + 1);
    } else {
        let more = secs + g.rates.duration(g.job(pos).checks);
        lemma_visit_budget(g, h, pos + 1, g.opened(slots, pos), more, wider);
    }
}

/// Planning is bounded. Few patterns are searched in full, and never at a limit. More
/// get a search within the node budget, and beyond the pattern limit none at all.
pub proof fn lemma_effort(
    rates: Rates,
    now: u64,
    policy: Policy,
    items: Map<usize, Shape>,
    previous: Seq<Team>,
)
    ensures
        ({
            let cost = effort(rates, now, policy, items, previous);
            &&& cost.patterns == patterns(items, items.dom()).len()
            &&& cost.exact + cost.bounded <= 1
            &&& cost.patterns <= EXACT_PATTERN_LIMIT ==> cost.bounded == 0 && cost.nodes == 0
                && cost.exhaustions == 0
            &&& cost.patterns > EXACT_PATTERN_LIMIT ==> cost.exact == 0
            &&& cost.patterns > PATTERN_LIMIT ==> cost.nodes == 0
            &&& cost.nodes <= NODE_BUDGET
            &&& cost.exhaustions <= cost.bounded
        }),
{
    reveal(effort);
    let all = patterns(items, items.dom());
    let start = greedy(rates, now, all);
    lemma_visit_budget(
        field(rates, now, shapes(all)),
        opening(rates, all, start),
        0,
        Seq::empty(),
        0,
        Set::empty(),
    );
}

} // verus!
