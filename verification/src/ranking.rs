//! What decides between divisions of the waiting jobs, and below what none can go.
use vstd::prelude::*;

use crate::bits::{bits_lt, tops};
use crate::bound::{
    capacity, clash, last_deadline, lemma_last_deadline, lemma_witnesses, lower_bound, machines,
    total, witnesses,
};
use crate::cover::{
    best, best_parts, better, cover_shapes, eligible, extend, full, lemma_best_found,
    lemma_best_good, lemma_best_optimal, lex_lt, outranks, rank, scan, Cover,
};
use crate::listing::{lemma_listing, lemma_upto, upto};
use crate::masks::{bit, lemma_mask_full, lemma_mask_step, mask_set, within};
use crate::partition::{
    beats, feasible, first_start, gathered, indexed, inhabited, lemma_first_start, score, seconds,
    splits,
};
use crate::placing::{goes_before, has_room, slack};
use crate::plan::{
    alternative, carried, effort, greedy, held, kept, plan, prefers, ready, together,
    EXACT_PATTERN_LIMIT,
};
use crate::plan_best::{lemma_compression, lemma_plan};
use crate::plan_laws::{greedy_parts, lemma_all, lemma_carried, lemma_greedy, lemma_improved};
use crate::policy::Policy;
use crate::shape::{gather, lemma_gather_urgent, Rates, Shape};
use crate::team::{
    crews, lemma_sooner_orders, lemma_urgency, on_time, patterns, shapes, sooner, urgency, Team,
};
use crate::thrift::{lemma_best_plan, lemma_machine_seconds, lemma_team_seconds, machine_seconds};

verus! {

/// One of the blocks has to start no later than any of these batches.
pub open spec fn starts_no_later(
    rates: Rates,
    items: Map<usize, Shape>,
    blocks: Seq<Set<usize>>,
    teams: Seq<Team>,
) -> bool {
    exists|b: int|
        0 <= b < blocks.len() && forall|i: int|
            0 <= i < teams.len() ==> slack(rates, gather(items, #[trigger] blocks[b])) <= slack(
                rates,
                (#[trigger] teams[i]).shape,
            )
}

/// The demands `made` are no worse than `other` in count, then seconds, then first start.
spec fn ranks_first(rates: Rates, made: Seq<Shape>, other: Seq<Shape>) -> bool {
    &&& made.len() <= other.len()
    &&& made.len() == other.len() ==> seconds(rates, made) <= seconds(rates, other)
    &&& made.len() == other.len() && seconds(rates, made) == seconds(rates, other) ==> first_start(
        rates,
        other,
    ) <= first_start(rates, made)
}

/// The competing plan after a full search, against any division of the patterns.
proof fn lemma_exact_parts(rates: Rates, now: u64, all: Seq<Team>, parts: Seq<Set<usize>>)
    requires
        0 < all.len() <= EXACT_PATTERN_LIMIT,
        !together(rates, now, all),
        on_time(rates, all, now),
        splits(parts, upto(all.len())),
        feasible(rates, indexed(shapes(all)), parts, now),
    ensures
        ranks_first(
            rates,
            shapes(alternative(rates, now, all)),
            gathered(indexed(shapes(all)), parts),
        ),
{
    let s = shapes(all);
    assert forall|i: int| 0 <= i < s.len() implies rates.fits(#[trigger] s[i], now) by {
        assert(rates.fits(all[i].shape, now));
    }
    let mask = full(s.len());
    lemma_best_found(rates, now, s);
    lemma_mask_full(s.len() as u32);
    lemma_best_optimal(rates, now, s, mask, parts);
    lemma_best_good(rates, now, s, mask);
    let cover = best(rates, now, s, mask)->0;
    assert(shapes(alternative(rates, now, all)) =~= cover_shapes(s, cover.groups));
}

/// The competing plan after a full search, against any division of the jobs.
proof fn lemma_exact_choice(
    rates: Rates,
    now: u64,
    policy: Policy,
    items: Map<usize, Shape>,
    previous: Seq<Team>,
    blocks: Seq<Set<usize>>,
)
    requires
        ready(rates, now, items, previous),
        effort(rates, now, policy, items, previous).exact == 1,
        splits(blocks, items.dom()),
        feasible(rates, items, blocks, now),
        inhabited(items.dom()),
    ensures
        ranks_first(
            rates,
            shapes(alternative(rates, now, patterns(items, items.dom()))),
            gathered(items, blocks),
        ),
{
    let all = patterns(items, items.dom());
    assert(!together(rates, now, all) && all.len() <= EXACT_PATTERN_LIMIT) by {
        reveal(effort);
    }
    lemma_all(rates, now, items);
    let parts = lemma_compression(rates, now, items, blocks);
    lemma_exact_parts(rates, now, all, parts);
}

/// The first of the blocks to start starts no later than any of the batches.
proof fn lemma_starts_no_later(
    rates: Rates,
    items: Map<usize, Shape>,
    blocks: Seq<Set<usize>>,
    made: Seq<Team>,
)
    requires
        blocks.len() > 0,
        first_start(rates, gathered(items, blocks)) <= first_start(rates, shapes(made)),
    ensures
        starts_no_later(rates, items, blocks, made),
{
    let theirs = gathered(items, blocks);
    lemma_first_start(rates, theirs);
    lemma_first_start(rates, shapes(made));
    let b = choose|b: int|
        0 <= b < theirs.len() && first_start(rates, theirs) == rates.latest(#[trigger] theirs[b]);
    assert(theirs[b] == gather(items, blocks[b]));
    assert forall|i: int| 0 <= i < made.len() implies slack(
        rates,
        gather(items, #[trigger] blocks[b]),
    ) <= slack(rates, (#[trigger] made[i]).shape) by {
        assert(shapes(made)[i] == made[i].shape);
    }
}

/// A plan that differs from the carried one is the competing plan.
pub proof fn lemma_rearranged(
    rates: Rates,
    now: u64,
    policy: Policy,
    items: Map<usize, Shape>,
    previous: Seq<Team>,
)
    requires
        ready(rates, now, items, previous),
        plan(rates, now, policy, items, previous) != carried(rates, now, items, previous),
    ensures
        plan(rates, now, policy, items, previous) == alternative(
            rates,
            now,
            patterns(items, items.dom()),
        ),
        inhabited(items.dom()),
        plan(rates, now, policy, items, previous).len() > 0,
{
    let old = carried(rates, now, items, previous);
    assert(old.len() > 1) by {
        reveal(plan);
    }
    assert(plan(rates, now, policy, items, previous) == alternative(
        rates,
        now,
        patterns(items, items.dom()),
    )) by {
        reveal(plan);
    }
    lemma_carried(rates, now, items, previous);
    assert(inhabited(crews(old)[0]));
    let t = choose|t: usize| #[trigger] crews(old)[0].contains(t);
    assert(items.dom().contains(t));
    lemma_plan(rates, now, policy, items, previous);
}

/// A rearranged plan of few distinct check sets is the best there is in three respects.
/// No division of the waiting jobs, each block still done in time when started now, has
/// fewer blocks, or as many that take fewer seconds, or as many that take as long and can
/// all wait longer.
pub proof fn lemma_exact_plan(
    rates: Rates,
    now: u64,
    policy: Policy,
    items: Map<usize, Shape>,
    previous: Seq<Team>,
    blocks: Seq<Set<usize>>,
)
    requires
        ready(rates, now, items, previous),
        effort(rates, now, policy, items, previous).exact == 1,
        plan(rates, now, policy, items, previous) != carried(rates, now, items, previous),
        splits(blocks, items.dom()),
        forall|b: int|
            0 <= b < blocks.len() ==> now + rates.boot + rates.work(
                gather(items, #[trigger] blocks[b]).checks,
            ) <= gather(items, blocks[b]).deadline,
    ensures
        ({
            let made = plan(rates, now, policy, items, previous);
            let mine = machine_seconds(rates, items, crews(made));
            let other = machine_seconds(rates, items, blocks);
            &&& made.len() <= blocks.len()
            &&& made.len() == blocks.len() ==> mine <= other
            &&& made.len() == blocks.len() && mine == other ==> starts_no_later(
                rates,
                items,
                blocks,
                made,
            )
        }),
{
    let made = plan(rates, now, policy, items, previous);
    lemma_rearranged(rates, now, policy, items, previous);
    assert(feasible(rates, items, blocks, now));
    lemma_exact_choice(rates, now, policy, items, previous, blocks);
    assert(forall|i: int|
        0 <= i < made.len() ==> (#[trigger] made[i]).shape == gather(items, made[i].members)) by {
        lemma_plan(rates, now, policy, items, previous);
    }
    lemma_team_seconds(rates, items, made);
    lemma_machine_seconds(rates, items, blocks);
    if made.len() == blocks.len() && machine_seconds(rates, items, crews(made))
        == machine_seconds(rates, items, blocks) {
        lemma_starts_no_later(rates, items, blocks, made);
    }
}

/// Picked demands that pairwise cannot share a machine. Each one that is not picked could
/// share one with a picked demand that goes before it.
pub open spec fn stand_off(rates: Rates, now: u64, s: Seq<Shape>, picked: Seq<usize>) -> bool {
    &&& forall|i: int| 0 <= i < picked.len() ==> (#[trigger] picked[i]) < s.len()
    &&& forall|i: int, j: int|
        0 <= i < j < picked.len() ==> !has_room(
            rates,
            now,
            s[(#[trigger] picked[j]) as int],
            s[(#[trigger] picked[i]) as int],
        )
    &&& forall|x: int|
        0 <= x < s.len() ==> picked.contains(x as usize) || exists|i: int|
            0 <= i < picked.len() && has_room(
                rates,
                now,
                #[trigger] s[x],
                s[(#[trigger] picked[i]) as int],
            ) && goes_before(rates, s, picked[i] as int, x)
}

/// What is picked from the first `k` in the order.
proof fn lemma_picked(rates: Rates, now: u64, s: Seq<Shape>, order: Seq<usize>, k: nat, i: int)
    requires
        0 <= i < witnesses(rates, now, s, order, k).len(),
    ensures
        exists|y: int|
            0 <= y < k && witnesses(rates, now, s, order, k)[i] == #[trigger] order[y],
    decreases k,
{
    let before = witnesses(rates, now, s, order, (k - 1) as nat);
    if i < before.len() {
        lemma_picked(rates, now, s, order, (k - 1) as nat, i);
        let y = choose|y: int| 0 <= y < k - 1 && before[i] == #[trigger] order[y];
        assert(witnesses(rates, now, s, order, k)[i] == order[y]);
    } else {
        assert(witnesses(rates, now, s, order, k)[i] == order[k - 1]);
    }
}

/// Every demand is picked, or shares a machine with one that is picked before it.
proof fn lemma_none_added(
    rates: Rates,
    now: u64,
    s: Seq<Shape>,
    order: Seq<usize>,
    k: nat,
    x: int,
)
    requires
        k <= order.len(),
        forall|i: int| 0 <= i < order.len() ==> (#[trigger] order[i]) < s.len(),
        0 <= x < k,
    ensures
        ({
            let picked = witnesses(rates, now, s, order, k);
            ||| picked.contains(order[x])
            ||| exists|i: int, y: int|
                0 <= i < picked.len() && 0 <= y < x && #[trigger] picked[i] == #[trigger] order[y]
                    && !clash(rates, now, s[order[x] as int], s[picked[i] as int])
        }),
    decreases k,
{
    let before = witnesses(rates, now, s, order, (k - 1) as nat);
    let picked = witnesses(rates, now, s, order, k);
    assert forall|i: int| 0 <= i < before.len() implies #[trigger] picked[i] == before[i] by {}
    if x < k - 1 {
        lemma_none_added(rates, now, s, order, (k - 1) as nat, x);
        if before.contains(order[x]) {
            let i = choose|i: int| 0 <= i < before.len() && before[i] == order[x];
            assert(picked[i] == order[x]);
        } else {
            let (i, y) = choose|i: int, y: int|
                0 <= i < before.len() && 0 <= y < x && #[trigger] before[i] == #[trigger] order[y]
                    && !clash(rates, now, s[order[x] as int], s[before[i] as int]);
            assert(picked[i] == order[y]);
        }
    } else if picked != before {
        assert(picked[before.len() as int] == order[x]);
    } else {
        let i = choose|i: int|
            0 <= i < before.len() && !clash(
                rates,
                now,
                s[order[x] as int],
                s[(#[trigger] before[i]) as int],
            );
        lemma_picked(rates, now, s, order, (k - 1) as nat, i);
        let y = choose|y: int| 0 <= y < k - 1 && before[i] == #[trigger] order[y];
        assert(picked[i] == order[y]);
    }
}

/// What the bound on batch count and seconds is. It is no less than the number of picked
/// demands that each need a machine, no less than the distinct work divided by what one
/// machine can do before the last deadline, and no more than the larger of these. The
/// seconds are a startup for each batch, and each distinct check once.
pub proof fn lemma_floor(rates: Rates, now: u64, s: Seq<Shape>) -> (picked: Seq<usize>)
    requires
        0 < s.len() <= usize::MAX,
        forall|i: int| 0 <= i < s.len() ==> rates.fits(#[trigger] s[i], now),
    ensures
        stand_off(rates, now, s, picked),
        ({
            let (count, secs) = lower_bound(rates, now, s);
            let work = rates.work(total(s).checks);
            &&& picked.len() <= count
            &&& 1 <= count
            &&& secs == count * rates.boot + work
            &&& forall|i: int|
                0 <= i < s.len() && (forall|j: int|
                    0 <= j < s.len() ==> (#[trigger] s[j]).deadline <= s[i].deadline) ==> {
                    let room = (#[trigger] s[i]).deadline - now - rates.boot;
                    &&& room > 0 ==> work <= count * room
                    &&& room > 0 && work > 0 && count > picked.len() ==> (count - 1) * room < work
                    &&& (room <= 0 || work == 0) && count > picked.len() ==> count == 1
                }
        }),
{
    let order = urgency(rates, s);
    let picked = witnesses(rates, now, s, order, s.len());
    let (count, secs) = lower_bound(rates, now, s);
    let work = rates.work(total(s).checks);
    lemma_urgency(rates, s);
    lemma_witnesses(rates, now, s, order, s.len());
    lemma_upto(s.len());
    lemma_sooner_orders(rates, s, upto(s.len()));
    let lt = |a: usize, b: usize| sooner(rates, s, a, b);
    lemma_listing(upto(s.len()), lt);
    assert forall|x: int| 0 <= x < s.len() implies picked.contains(x as usize) || exists|i: int|
        0 <= i < picked.len() && has_room(
            rates,
            now,
            #[trigger] s[x],
            s[(#[trigger] picked[i]) as int],
        ) && goes_before(rates, s, picked[i] as int, x) by {
        assert(order.to_set().contains(x as usize));
        let z = choose|z: int| 0 <= z < order.len() && order[z] == x as usize;
        lemma_none_added(rates, now, s, order, s.len(), z);
        if !picked.contains(x as usize) {
            let (i, y) = choose|i: int, y: int|
                0 <= i < picked.len() && 0 <= y < z && #[trigger] picked[i] == #[trigger] order[y]
                    && !clash(rates, now, s[order[z] as int], s[picked[i] as int]);
            assert(lt(order[y], order[z]));
            assert(has_room(rates, now, s[x], s[picked[i] as int]));
            assert(goes_before(rates, s, picked[i] as int, x));
        }
    }
    assert forall|i: int, j: int| 0 <= i < j < picked.len() implies !has_room(
        rates,
        now,
        s[(#[trigger] picked[j]) as int],
        s[(#[trigger] picked[i]) as int],
    ) by {
        assert(clash(rates, now, s[picked[j] as int], s[picked[i] as int]));
    }
    assert forall|i: int|
        0 <= i < s.len() && (forall|j: int|
            0 <= j < s.len() ==> (#[trigger] s[j]).deadline <= s[i].deadline) implies {
        let room = (#[trigger] s[i]).deadline - now - rates.boot;
        &&& room > 0 ==> work <= count * room
        &&& room > 0 && work > 0 && count > picked.len() ==> (count - 1) * room < work
        &&& (room <= 0 || work == 0) && count > picked.len() ==> count == 1
    } by {
        let room = s[i].deadline - now - rates.boot;
        lemma_last_deadline(s, i);
        lemma_some_last(s);
        assert(room == capacity(rates, now, s));
        if room > 0 && work > 0 {
            let need = (work + room - 1) / room;
            assert(need == machines(rates, now, s));
            lemma_rounded_up(work as int, room, need);
            assert(work <= count * room) by (nonlinear_arith)
                requires
                    work <= need * room,
                    need <= count,
                    room > 0,
            ;
        } else if room > 0 {
            assert(0 <= count * room) by (nonlinear_arith)
                requires
                    room > 0,
                    count >= 0,
            ;
        }
    }
    assert(1 <= count) by {
        lemma_none_added(rates, now, s, order, s.len(), 0);
    }
    picked
}

proof fn lemma_rounded_up(work: int, room: int, need: int)
    by (nonlinear_arith)
    requires
        room > 0,
        work > 0,
        need == (work + room - 1) / room,
    ensures
        work <= need * room,
        (need - 1) * room < work,
        need >= 1,
{
}

/// Some demand has the most generous deadline.
proof fn lemma_some_last(s: Seq<Shape>)
    requires
        s.len() > 0,
    ensures
        exists|i: int| 0 <= i < s.len() && (#[trigger] s[i]).deadline == last_deadline(s),
    decreases s.len(),
{
    let init = s.drop_last();
    let n = s.len() - 1;
    assert(s[n] == s.last());
    if init.len() > 0 {
        lemma_some_last(init);
        let i = choose|i: int| 0 <= i < init.len() && (#[trigger] init[i]).deadline == last_deadline(init);
        assert(s[i] == init[i]);
    }
}

/// Placing every waiting job from scratch is carrying on nothing.
proof fn lemma_from_scratch(rates: Rates, now: u64, items: Map<usize, Shape>)
    ensures
        carried(rates, now, items, Seq::empty()) == greedy(
            rates,
            now,
            patterns(items, items.dom()),
        ),
{
    let none = Seq::<Team>::empty();
    assert(kept(items, none) =~= none);
    assert(items.dom().difference(held(none)) =~= items.dom());
}

/// What a bounded search finds, against what it starts from.
proof fn lemma_found_no_worse(rates: Rates, now: u64, items: Map<usize, Shape>)
    requires
        items.dom().finite(),
        items.dom().len() <= usize::MAX,
        forall|t: usize| #[trigger] items.contains_key(t) ==> rates.fits(items[t], now),
        patterns(items, items.dom()).len() > EXACT_PATTERN_LIMIT,
        !together(rates, now, patterns(items, items.dom())),
    ensures
        !beats(
            score(rates, shapes(greedy(rates, now, patterns(items, items.dom())))),
            score(rates, shapes(alternative(rates, now, patterns(items, items.dom())))),
        ),
{
    let all = patterns(items, items.dom());
    lemma_all(rates, now, items);
    lemma_greedy(rates, now, all);
    let _ = lemma_improved(rates, now, all, items.dom(), greedy_parts(rates, now, all));
}

/// A plan that was searched for, against the competing one.
proof fn lemma_searched(
    rates: Rates,
    now: u64,
    policy: Policy,
    items: Map<usize, Shape>,
    previous: Seq<Team>,
)
    requires
        effort(rates, now, policy, items, previous).exhaustions != 0,
    ensures
        patterns(items, items.dom()).len() > EXACT_PATTERN_LIMIT,
        !together(rates, now, patterns(items, items.dom())),
        ({
            let made = score(rates, shapes(plan(rates, now, policy, items, previous)));
            let other = score(
                rates,
                shapes(alternative(rates, now, patterns(items, items.dom()))),
            );
            made == other || !prefers(policy, other, made)
        }),
{
    reveal(plan);
    reveal(effort);
}

/// A plan is never worse than placing every waiting job from scratch, one group of equals
/// after the other, not even where the search for a better one is cut short.
pub proof fn lemma_no_worse_than_scratch(
    rates: Rates,
    now: u64,
    policy: Policy,
    items: Map<usize, Shape>,
    previous: Seq<Team>,
)
    requires
        ready(rates, now, items, previous),
    ensures
        ({
            let made = plan(rates, now, policy, items, previous);
            let scratch = carried(rates, now, items, Seq::empty());
            &&& made.len() <= scratch.len()
            &&& policy == Policy::Cost && made.len() == scratch.len() ==> machine_seconds(
                rates,
                items,
                crews(made),
            ) <= machine_seconds(rates, items, crews(scratch))
        }),
{
    let made = plan(rates, now, policy, items, previous);
    let scratch = carried(rates, now, items, Seq::empty());
    let blocks = crews(scratch);
    assert(kept(items, Seq::<Team>::empty()) =~= Seq::<Team>::empty());
    lemma_carried(rates, now, items, Seq::empty());
    lemma_from_scratch(rates, now, items);
    lemma_plan(rates, now, policy, items, previous);
    lemma_team_seconds(rates, items, scratch);
    lemma_team_seconds(rates, items, made);
    if effort(rates, now, policy, items, previous).exhaustions == 0 {
        assert forall|b: int| 0 <= b < blocks.len() implies now + rates.boot + rates.work(
            gather(items, #[trigger] blocks[b]).checks,
        ) <= gather(items, blocks[b]).deadline by {
            assert(rates.fits(scratch[b].shape, now));
        }
        lemma_best_plan(rates, now, policy, items, previous, blocks);
    } else {
        lemma_searched(rates, now, policy, items, previous);
        lemma_found_no_worse(rates, now, items);
    }
}

/// The sequences agree up to some place, where the first ends or has the lower number.
pub open spec fn listed_before(a: Seq<u32>, b: Seq<u32>) -> bool {
    exists|k: int|
        0 <= k <= a.len() && k < b.len() && #[trigger] a.take(k) == b.take(k) && (k == a.len()
            || a[k] < b[k])
}

proof fn lemma_listed_before(a: Seq<u32>, b: Seq<u32>)
    ensures
        lex_lt(a, b) <==> listed_before(a, b),
    decreases a.len(),
{
    if b.len() == 0 {
    } else if a.len() == 0 || a[0] < b[0] {
        assert(a.take(0) =~= b.take(0));
    } else if a[0] != b[0] {
        if listed_before(a, b) {
            let k = choose|k: int|
                0 <= k <= a.len() && k < b.len() && #[trigger] a.take(k) == b.take(k) && (k
                    == a.len() || a[k] < b[k]);
            assert(k > 0);
            assert(a.take(k)[0] == b.take(k)[0]);
        }
    } else {
        let x = a.drop_first();
        let y = b.drop_first();
        lemma_listed_before(x, y);
        if listed_before(x, y) {
            let k = choose|k: int|
                0 <= k <= x.len() && k < y.len() && #[trigger] x.take(k) == y.take(k) && (k
                    == x.len() || x[k] < y[k]);
            assert forall|i: int| 0 <= i < k + 1 implies a[i] == b[i] by {
                if i > 0 {
                    assert(x.take(k)[i - 1] == y.take(k)[i - 1]);
                }
            }
            assert(a.take(k + 1) =~= b.take(k + 1));
        }
        if listed_before(a, b) {
            let k = choose|k: int|
                0 <= k <= a.len() && k < b.len() && #[trigger] a.take(k) == b.take(k) && (k
                    == a.len() || a[k] < b[k]);
            assert(k > 0);
            assert forall|i: int| 0 <= i < k - 1 implies x[i] == y[i] by {
                assert(a.take(k)[i + 1] == b.take(k)[i + 1]);
            }
            assert(x.take(k - 1) =~= y.take(k - 1));
        }
    }
}

/// Lexicographic order is transitive.
proof fn lemma_lex_transitive(a: Seq<u32>, b: Seq<u32>, c: Seq<u32>)
    requires
        lex_lt(a, b),
        lex_lt(b, c),
    ensures
        lex_lt(a, c),
    decreases a.len(),
{
    if a.len() > 0 && a[0] == b[0] && b[0] == c[0] {
        lemma_lex_transitive(a.drop_first(), b.drop_first(), c.drop_first());
    }
}

proof fn lemma_lex_irreflexive(a: Seq<u32>)
    ensures
        !lex_lt(a, a),
    decreases a.len(),
{
    if a.len() > 0 {
        lemma_lex_irreflexive(a.drop_first());
    }
}

/// The cover `d` is preferred to `c`: fewer groups, or as many in fewer seconds, or these
/// too, and it can wait longer, or all of this, and its groups are listed first.
pub open spec fn preferred(d: Cover, c: Cover) -> bool {
    ||| d.groups.len() < c.groups.len()
    ||| d.groups.len() == c.groups.len() && d.seconds < c.seconds
    ||| d.groups.len() == c.groups.len() && d.seconds == c.seconds && d.first_launch
        > c.first_launch
    ||| d.groups.len() == c.groups.len() && d.seconds == c.seconds && d.first_launch
        == c.first_launch && listed_before(d.groups, c.groups)
}

proof fn lemma_preferred(a: Cover, b: Cover, c: Cover)
    ensures
        preferred(a, b) <==> outranks(rank(a), rank(b)) || rank(a) == rank(b) && lex_lt(
            a.groups,
            b.groups,
        ),
        !preferred(a, a),
        preferred(a, b) && preferred(b, c) ==> preferred(a, c),
{
    lemma_listed_before(a.groups, b.groups);
    lemma_listed_before(b.groups, c.groups);
    lemma_listed_before(a.groups, c.groups);
    lemma_listed_before(a.groups, a.groups);
    lemma_lex_irreflexive(a.groups);
    if lex_lt(a.groups, b.groups) && lex_lt(b.groups, c.groups) {
        lemma_lex_transitive(a.groups, b.groups, c.groups);
    }
}

/// Nothing preferred to the scan's result is an incumbent, or tried.
proof fn lemma_scan_preferred(
    rates: Rates,
    now: u64,
    s: Seq<Shape>,
    mask: u32,
    part: u32,
    found: Option<Cover>,
    target: u32,
    old: Cover,
)
    requires
        within(part, mask),
    ensures
        ({
            let after = scan(rates, now, s, mask, part, found);
            let tail = best(rates, now, s, mask ^ target);
            &&& found is Some && !preferred(old, found->0) ==> after is Some && !preferred(
                old,
                after->0,
            )
            &&& within(target, mask) && target != 0 && target <= part && eligible(
                rates,
                now,
                s,
                mask,
                target,
            ) && tail is Some ==> after is Some && !preferred(
                extend(rates, s, tail->0, target),
                after->0,
            )
        }),
    decreases part,
{
    if part != 0 {
        let tail = best(rates, now, s, mask ^ part);
        let next = (part - 1) as u32 & mask;
        let new = extend(rates, s, tail->0, part);
        let kept_on = if eligible(rates, now, s, mask, part) && tail is Some {
            Some(better(found, new))
        } else {
            found
        };
        lemma_mask_step(mask, part);
        if eligible(rates, now, s, mask, part) && tail is Some {
            if found is Some {
                lemma_preferred(new, found->0, found->0);
                lemma_preferred(old, new, found->0);
                lemma_preferred(old, found->0, found->0);
            }
            lemma_preferred(new, new, new);
        }
        lemma_scan_preferred(rates, now, s, mask, next, kept_on, target, old);
        if within(target, mask) && target == part {
            lemma_scan_preferred(rates, now, s, mask, next, kept_on, target, new);
        }
        assert(within(target, mask) && target < part ==> target <= next);
    }
}

/// A full search tries every group that holds the first pattern, each with the best cover
/// of the rest, and takes none to which one of these is preferred.
pub proof fn lemma_every_group_tried(
    rates: Rates,
    now: u64,
    s: Seq<Shape>,
    mask: u32,
    part: u32,
)
    requires
        mask != 0,
        part != 0,
        within(part, mask),
        eligible(rates, now, s, mask, part),
        best(rates, now, s, mask ^ part) is Some,
    ensures
        best(rates, now, s, mask) is Some,
        !preferred(
            extend(rates, s, best(rates, now, s, mask ^ part)->0, part),
            best(rates, now, s, mask)->0,
        ),
{
    let any = extend(rates, s, best(rates, now, s, mask ^ part)->0, part);
    assert(within(mask, mask)) by {
        assert(mask & mask == mask) by (bit_vector);
    }
    assert(part <= mask) by {
        assert(part & mask == part ==> part <= mask) by (bit_vector);
    }
    lemma_scan_preferred(rates, now, s, mask, mask, None, part, any);
}

/// What a full search finds for a few demands: a division into groups that each can still
/// wait, to which no other such division is preferred in count, then seconds, then in how
/// long all of it can wait.
pub proof fn lemma_full_search(
    rates: Rates,
    now: u64,
    s: Seq<Shape>,
    parts: Seq<Set<usize>>,
)
    requires
        s.len() < 32,
        forall|i: int| 0 <= i < s.len() ==> now <= slack(rates, #[trigger] s[i]),
        splits(parts, upto(s.len())),
        forall|b: int|
            0 <= b < parts.len() ==> now <= slack(rates, gather(indexed(s), #[trigger] parts[b])),
    ensures
        ({
            let made = best_parts(rates, now, s);
            let mine = machine_seconds(rates, indexed(s), made);
            let other = machine_seconds(rates, indexed(s), parts);
            &&& splits(made, upto(s.len()))
            &&& forall|b: int|
                0 <= b < made.len() ==> now <= slack(rates, gather(indexed(s), #[trigger] made[b]))
            &&& made.len() <= parts.len()
            &&& made.len() == parts.len() ==> mine <= other
            &&& made.len() == parts.len() && mine == other && made.len() > 0 ==> exists|b: int|
                0 <= b < parts.len() && forall|i: int|
                    0 <= i < made.len() ==> slack(rates, gather(indexed(s), #[trigger] parts[b]))
                        <= slack(rates, gather(indexed(s), #[trigger] made[i]))
        }),
{
    let made = best_parts(rates, now, s);
    let mask = full(s.len());
    assert forall|i: int| 0 <= i < s.len() implies rates.fits(#[trigger] s[i], now) by {
        assert(now <= slack(rates, s[i]));
    }
    assert(feasible(rates, indexed(s), parts, now));
    lemma_best_found(rates, now, s);
    lemma_mask_full(s.len() as u32);
    lemma_best_optimal(rates, now, s, mask, parts);
    lemma_best_good(rates, now, s, mask);
    lemma_machine_seconds(rates, indexed(s), made);
    lemma_machine_seconds(rates, indexed(s), parts);
    let ours = gathered(indexed(s), made);
    let theirs = gathered(indexed(s), parts);
    assert(ours =~= cover_shapes(s, best(rates, now, s, mask)->0.groups));
    if made.len() == parts.len() && made.len() > 0 && seconds(rates, ours) == seconds(
        rates,
        theirs,
    ) {
        lemma_first_start(rates, ours);
        lemma_first_start(rates, theirs);
        let b = choose|b: int|
            0 <= b < theirs.len() && first_start(rates, theirs) == rates.latest(
                #[trigger] theirs[b],
            );
        assert(theirs[b] == gather(indexed(s), parts[b]));
        assert forall|i: int| 0 <= i < made.len() implies slack(
            rates,
            gather(indexed(s), #[trigger] parts[b]),
        ) <= slack(rates, gather(indexed(s), #[trigger] made[i])) by {
            assert(ours[i] == gather(indexed(s), made[i]));
        }
    }
}

/// Everything together asks for each check that anything asks for, before the first of all
/// deadlines.
pub proof fn lemma_total(s: Seq<Shape>)
    requires
        0 < s.len() <= usize::MAX,
    ensures
        forall|c: usize| #[trigger]
            total(s).checks.contains(c) <==> exists|i: int|
                0 <= i < s.len() && (#[trigger] s[i]).checks.contains(c),
        forall|i: int| 0 <= i < s.len() ==> total(s).deadline <= (#[trigger] s[i]).deadline,
        exists|i: int| 0 <= i < s.len() && (#[trigger] s[i]).deadline == total(s).deadline,
{
    let whole = upto(s.len());
    let items = indexed(s);
    lemma_upto(s.len());
    assert(whole.contains(0));
    lemma_gather_urgent(items, whole);
    assert forall|c: usize| #[trigger] total(s).checks.contains(c) <==> exists|i: int|
        0 <= i < s.len() && (#[trigger] s[i]).checks.contains(c) by {
        if total(s).checks.contains(c) {
            let t = choose|t: usize| #[trigger] whole.contains(t) && items[t].checks.contains(c);
            assert(s[t as int].checks.contains(c));
        }
        if exists|i: int| 0 <= i < s.len() && (#[trigger] s[i]).checks.contains(c) {
            let i = choose|i: int| 0 <= i < s.len() && (#[trigger] s[i]).checks.contains(c);
            assert(whole.contains(i as usize) && items[i as usize].checks.contains(c));
        }
    }
    assert forall|i: int| 0 <= i < s.len() implies total(s).deadline <= (
    #[trigger] s[i]).deadline by {
        assert(whole.contains(i as usize));
    }
    let t = choose|t: usize| #[trigger]
        whole.contains(t) && items[t].deadline == gather(items, whole).deadline;
    assert(s[t as int].deadline == total(s).deadline);
}

/// Where two masks that agree above `n` differ highest.
proof fn lemma_mask_tops(a: u32, b: u32, n: u32)
    requires
        n <= 31,
        a < b,
        n < 31 ==> a >> ((n + 1) as u32) == b >> ((n + 1) as u32),
    ensures
        bits_lt(mask_set(a), mask_set(b)),
    decreases n,
{
    let m = (n + 1) as u32;
    if bit(a, n) == bit(b, n) {
        assert(a >> n == b >> n) by (bit_vector)
            requires
                n <= 31,
                m == n + 1,
                n < 31 ==> a >> m == b >> m,
                ((a >> n) & 1u32 == 1u32) == ((b >> n) & 1u32 == 1u32),
        ;
        if n == 0 {
            assert(a >> 0u32 == a && b >> 0u32 == b) by (bit_vector);
        } else {
            lemma_mask_tops(a, b, (n - 1) as u32);
        }
    } else {
        assert((b >> n) & 1u32 == 1u32) by (bit_vector)
            requires
                n <= 31,
                a < b,
                m == n + 1,
                n < 31 ==> a >> m == b >> m,
                ((a >> n) & 1u32 == 1u32) != ((b >> n) & 1u32 == 1u32),
        ;
        assert forall|j: usize| n < j implies (#[trigger] mask_set(a).contains(j) <==> mask_set(
            b,
        ).contains(j)) by {
            if j < 32 {
                let i = j as u32;
                assert((a >> i) & 1u32 == (b >> i) & 1u32) by (bit_vector)
                    requires
                        n < i < 32,
                        m == n + 1,
                        a >> m == b >> m,
                ;
            }
        }
        assert(tops(mask_set(a), mask_set(b), n as usize));
    }
}

/// A full search lists its groups in numeral order.
pub proof fn lemma_groups_in_order(rates: Rates, now: u64, s: Seq<Shape>, i: int, j: int)
    requires
        s.len() < 32,
        forall|x: int| 0 <= x < s.len() ==> now <= slack(rates, #[trigger] s[x]),
        0 <= i < j < best_parts(rates, now, s).len(),
    ensures
        bits_lt(best_parts(rates, now, s)[i], best_parts(rates, now, s)[j]),
{
    assert forall|x: int| 0 <= x < s.len() implies rates.fits(#[trigger] s[x], now) by {
        assert(now <= slack(rates, s[x]));
    }
    lemma_best_found(rates, now, s);
    lemma_best_good(rates, now, s, full(s.len()));
    let groups = best(rates, now, s, full(s.len()))->0.groups;
    assert(groups[i] < groups[j]);
    lemma_mask_tops(groups[i], groups[j], 31);
}

} // verus!
