//! The best partition of a small pool, by exhaustive search over subsets.
use vstd::prelude::*;

use crate::checks::{Checks, Costs};
use crate::cover::{
    best, best_parts, better, lemma_best_found, lemma_extend_good, extend, good, good_or_none,
    lemma_best_good, lemma_put, lemma_put_at, lex_lt, mask_sets, mask_shape, put, rank, scan, Cover,
};
use crate::group::{lemma_covers, lemma_covers_union, priced, rosters, teams, Group};
use crate::listing::{ascending, lemma_ascending, lemma_upto, upto};
use crate::masks::{
    anchor, lemma_anchor, lemma_mask_drop, lemma_mask_empty, lemma_mask_finite, lemma_mask_full,
    lemma_mask_minus, lemma_mask_small, lemma_mask_step, mask_set, within,
};
use crate::partition::indexed;
use crate::roster::{in_turn, strung, strung_all};
use crate::roster_laws::lemma_strung_next;
use crate::shape::{lemma_gather_empty, lemma_gather_insert, Shape};
use crate::team::{bundle, bundles, crew_of, lemma_crew_empty, lemma_crew_insert, shapes};

verus! {

/// What one subset of the patterns asks for.
struct Choice {
    checks: Checks,
    deadline: u64,
    duration: u128,
    latest: Option<u64>,
}

/// The entry for `mask` says what its patterns ask for, and the latest start if the
/// batch can still wait until `now`.
spec fn describes(choice: Choice, costs: Costs, now: u64, s: Seq<Shape>, mask: u32) -> bool {
    let shape = mask_shape(s, mask);
    &&& costs.covers(choice.checks)
    &&& choice.checks@ == shape.checks
    &&& choice.deadline == shape.deadline
    &&& choice.duration == costs@.duration(shape.checks)
    &&& choice.latest is Some <==> costs@.fits(shape, now)
    &&& choice.latest matches Some(start) ==> start == costs@.latest(shape)
}

/// A partition into subsets, with its cost and its first launch.
struct Solution {
    groups: Vec<u32>,
    seconds: u128,
    first_launch: u64,
}

impl View for Solution {
    type V = Cover;

    closed spec fn view(&self) -> Cover {
        Cover {
            groups: self.groups@,
            seconds: self.seconds as nat,
            first_launch: self.first_launch,
        }
    }
}

spec fn found(solution: Option<Solution>) -> Option<Cover> {
    match solution {
        Some(solution) => Some(solution@),
        None => None,
    }
}

/// `x` put into its place among increasing numbers.
fn put_sorted(groups: &Vec<u32>, x: u32) -> (more: Vec<u32>)
    requires
        forall|i: int, j: int|
            0 <= i < j < groups.len() ==> #[trigger] groups@[i] < #[trigger] groups@[j],
    ensures
        more@ == put(groups@, x),
{
    let mut more: Vec<u32> = groups.clone();
    let mut place: usize = groups.len();
    while place > 0 && groups[place - 1] > x
        invariant
            place <= groups.len(),
            forall|i: int| place <= i < groups.len() ==> x < #[trigger] groups@[i],
        decreases place,
    {
        place = place - 1;
    }
    proof {
        assert forall|i: int| 0 <= i < place implies #[trigger] groups@[i] <= x by {
            if i < place - 1 {
                assert(groups@[i] < groups@[place - 1]);
            }
        }
        lemma_put_at(groups@, x, place as int);
    }
    more.insert(place, x);
    more
}

/// Lexicographic order.
fn lex_less(a: &Vec<u32>, b: &Vec<u32>) -> (less: bool)
    ensures
        less == lex_lt(a@, b@),
{
    let mut i: usize = 0;
    assert(a@.skip(0) =~= a@);
    assert(b@.skip(0) =~= b@);
    while i < a.len() && i < b.len()
        invariant
            i <= a.len(),
            i <= b.len(),
            lex_lt(a@, b@) == lex_lt(a@.skip(i as int), b@.skip(i as int)),
        decreases a.len() - i,
    {
        assert(a@.skip(i as int)[0] == a@[i as int]);
        assert(b@.skip(i as int)[0] == b@[i as int]);
        assert(a@.skip(i as int).drop_first() =~= a@.skip(i + 1));
        assert(b@.skip(i as int).drop_first() =~= b@.skip(i + 1));
        if a[i] != b[i] {
            return a[i] < b[i];
        }
        i = i + 1;
    }
    i < b.len()
}

/// What every subset of the patterns asks for.
fn choices(patterns: &Vec<Group>, costs: &Costs, now: u64, size: u32) -> (table: Vec<Choice>)
    requires
        priced(*costs, patterns@),
        patterns.len() < 32,
        size == 1u32 << (patterns.len() as u32),
    ensures
        table.len() == size,
        forall|m: u32|
            m < size ==> describes(
                #[trigger] table@[m as int],
                *costs,
                now,
                shapes(teams(patterns@)),
                m,
            ),
{
    let ghost s = shapes(teams(patterns@));
    let ghost n = patterns.len() as u32;
    let mut table: Vec<Choice> = Vec::new();
    let none: Checks = Checks::default();
    proof {
        lemma_mask_empty();
        lemma_gather_empty(indexed(s));
        lemma_covers(*costs, none);
        lemma_mask_full(n);
    }
    let idle_duration: u128 = costs.duration(&none);
    let idle_latest: Option<u64> = match costs.latest(&none, u64::MAX) {
        Some(start) => if start >= now {
            Some(start)
        } else {
            None
        },
        None => None,
    };
    table.push(
        Choice {
            checks: none,
            deadline: u64::MAX,
            duration: idle_duration,
            latest: idle_latest,
        },
    );
    let mut mask: u32 = 1;
    while mask < size
        invariant
            priced(*costs, patterns@),
            s == shapes(teams(patterns@)),
            n == patterns.len(),
            n < 32,
            size == 1u32 << n,
            1 <= mask <= size,
            table.len() == mask,
            forall|m: u32|
                m < mask ==> describes(#[trigger] table@[m as int], *costs, now, s, m),
        decreases size - mask,
    {
        let index: u32 = mask.trailing_zeros();
        let rest: u32 = mask & (mask - 1);
        proof {
            lemma_mask_drop(mask);
            lemma_mask_small(mask, n);
            lemma_mask_finite(rest);
            lemma_gather_insert(indexed(s), mask_set(rest), index as usize);
            assert(s[index as int] == patterns@[index as int]@.shape);
            assert(describes(table@[rest as int], *costs, now, s, rest));
        }
        let pattern: &Group = &patterns[index as usize];
        let base: &Choice = &table[rest as usize];
        let checks: Checks = base.checks.union(&pattern.checks);
        let deadline: u64 = if base.deadline <= pattern.deadline {
            base.deadline
        } else {
            pattern.deadline
        };
        proof {
            lemma_covers_union(*costs, base.checks, pattern.checks, checks);
            assert(mask_shape(s, mask) == Shape { checks: checks@, deadline });
        }
        let duration: u128 = costs.duration(&checks);
        let latest: Option<u64> = match costs.latest(&checks, deadline) {
            Some(start) => if start >= now {
                Some(start)
            } else {
                None
            },
            None => None,
        };
        table.push(Choice { checks, deadline, duration, latest });
        mask = mask + 1;
    }
    table
}

/// The better of the incumbent and the best rest extended by `part`.
fn consider(
    incumbent: Option<Solution>,
    tail: &Solution,
    choice: &Choice,
    start: u64,
    part: u32,
    Ghost(mask): Ghost<u32>,
    Ghost(costs): Ghost<Costs>,
    Ghost(now): Ghost<u64>,
    Ghost(s): Ghost<Seq<Shape>>,
) -> (next: Option<Solution>)
    requires
        part != 0,
        within(part, mask),
        describes(*choice, costs, now, s, part),
        choice.latest == Some(start),
        good(costs@, now, s, mask ^ part, tail@),
        good_or_none(costs@, now, s, mask, found(incumbent)),
    ensures
        found(next) == Some(better(found(incumbent), extend(costs@, s, tail@, part))),
{
    let ghost new = extend(costs@, s, tail@, part);
    proof {
        let rest = mask ^ part;
        assert(rest * u64::MAX <= 0xffff_ffff * u64::MAX) by (nonlinear_arith)
            requires
                rest <= 0xffff_ffff,
        ;
        lemma_mask_minus(mask, part);
        lemma_put(tail@.groups, part);
    }
    let count: usize = tail.groups.len() + 1;
    let seconds: u128 = tail.seconds + choice.duration;
    let first_launch: u64 = if start <= tail.first_launch {
        start
    } else {
        tail.first_launch
    };
    assert(rank(new) == (count as nat, seconds as nat, first_launch as int));
    match incumbent {
        None => {
            let groups: Vec<u32> = put_sorted(&tail.groups, part);
            Some(Solution { groups, seconds, first_launch })
        },
        Some(old) => {
            // After count and seconds tie, prefer more time before the
            // first launch. This is a deterministic opportunity-preserving
            // tie-break, not a guarantee about unseen arrivals.
            let wins: bool = if count != old.groups.len() {
                count < old.groups.len()
            } else if seconds != old.seconds {
                seconds < old.seconds
            } else {
                first_launch > old.first_launch
            };
            let ties: bool = count == old.groups.len() && seconds == old.seconds && first_launch
                == old.first_launch;
            if wins || ties {
                let groups: Vec<u32> = put_sorted(&tail.groups, part);
                if wins || lex_less(&groups, &old.groups) {
                    Some(Solution { groups, seconds, first_launch })
                } else {
                    Some(old)
                }
            } else {
                Some(old)
            }
        },
    }
}

/// The best cover of every subset.
fn solve(
    table: &Vec<Choice>,
    costs: &Costs,
    now: u64,
    size: u32,
    Ghost(s): Ghost<Seq<Shape>>,
) -> (solutions: Vec<
    Option<Solution>,
>)
    requires
        size > 0,
        table.len() == size,
        forall|m: u32| m < size ==> describes(#[trigger] table@[m as int], *costs, now, s, m),
    ensures
        solutions.len() == size,
        forall|m: u32|
            m < size ==> found(#[trigger] solutions@[m as int]) == best(costs@, now, s, m),
{
    let mut solutions: Vec<Option<Solution>> = Vec::new();
    solutions.push(
        Some(Solution { groups: Vec::new(), seconds: 0, first_launch: u64::MAX }),
    );
    assert(found(solutions@[0])->0.groups =~= best(costs@, now, s, 0)->0.groups);
    let mut mask: u32 = 1;
    while mask < size
        invariant
            1 <= mask <= size,
            table.len() == size,
            forall|m: u32| m < size ==> describes(#[trigger] table@[m as int], *costs, now, s, m),
            solutions.len() == mask,
            forall|m: u32|
                m < mask ==> found(#[trigger] solutions@[m as int]) == best(costs@, now, s, m),
        decreases size - mask,
    {
        // Every partition has exactly one group containing this anchor. Only
        // consider those subsets, avoiding permutations of the same partition.
        // Removing a nonempty subset also makes the dependency smaller.
        let low: u32 = mask.trailing_zeros();
        let mut part: u32 = mask;
        let mut incumbent: Option<Solution> = None;
        proof {
            lemma_anchor(mask);
            assert(mask & mask == mask) by (bit_vector);
        }
        while part != 0
            invariant
                1 <= mask < size,
                low == anchor(mask),
                low < 32,
                table.len() == size,
                forall|m: u32|
                    m < size ==> describes(#[trigger] table@[m as int], *costs, now, s, m),
                solutions.len() == mask,
                forall|m: u32|
                    m < mask ==> found(#[trigger] solutions@[m as int]) == best(
                        costs@,
                        now,
                        s,
                        m,
                    ),
                within(part, mask),
                good_or_none(costs@, now, s, mask, found(incumbent)),
                best(costs@, now, s, mask) == scan(costs@, now, s, mask, part, found(incumbent)),
            decreases part,
        {
            proof {
                lemma_mask_minus(mask, part);
                lemma_mask_step(mask, part);
                assert(part <= mask) by (bit_vector)
                    requires
                        part & mask == part,
                ;
                lemma_best_good(costs@, now, s, mask ^ part);
                assert(describes(table@[part as int], *costs, now, s, part));
                assert(found(solutions@[(mask ^ part) as int]) == best(
                    costs@,
                    now,
                    s,
                    mask ^ part,
                ));
            }
            if (part >> low) & 1u32 == 1u32 {
                if let Some(start) = table[part as usize].latest {
                    if let Some(tail) = &solutions[(mask ^ part) as usize] {
                        incumbent = consider(
                            incumbent,
                            tail,
                            &table[part as usize],
                            start,
                            part,
                            Ghost(mask),
                            Ghost(*costs),
                            Ghost(now),
                            Ghost(s),
                        );
                        proof {
                            lemma_extend_good(costs@, now, s, mask, part, tail@);
                        }
                    }
                }
            }
            part = (part - 1) & mask;
        }
        solutions.push(incumbent);
        mask = mask + 1;
    }
    solutions
}

/// The batches of the best cover.
fn exact_groups(
    patterns: &Vec<Group>,
    table: &Vec<Choice>,
    masks: &Vec<u32>,
    costs: &Costs,
    Ghost(now): Ghost<u64>,
) -> (groups: Vec<Group>)
    requires
        priced(*costs, patterns@),
        patterns.len() < 32,
        table.len() == 1u32 << (patterns.len() as u32),
        forall|m: u32|
            m < table.len() ==> describes(
                #[trigger] table@[m as int],
                *costs,
                now,
                shapes(teams(patterns@)),
                m,
            ),
        forall|i: int| 0 <= i < masks.len() ==> (#[trigger] masks@[i]) < table.len(),
    ensures
        teams(groups@) == bundles(teams(patterns@), mask_sets(masks@)),
        rosters(groups@) == strung_all(rosters(patterns@), in_turn(mask_sets(masks@))),
        priced(*costs, groups@),
{
    let ghost all = teams(patterns@);
    let ghost s = shapes(all);
    let mut groups: Vec<Group> = Vec::new();
    let mut i: usize = 0;
    while i < masks.len()
        invariant
            all == teams(patterns@),
            s == shapes(all),
            patterns.len() < 32,
            table.len() == 1u32 << (patterns.len() as u32),
            forall|m: u32|
                m < table.len() ==> describes(#[trigger] table@[m as int], *costs, now, s, m),
            forall|i: int| 0 <= i < masks.len() ==> (#[trigger] masks@[i]) < table.len(),
            i <= masks.len(),
            groups.len() == i,
            forall|k: int|
                0 <= k < i ==> (#[trigger] groups@[k])@ == bundle(all, mask_set(masks@[k])),
            forall|k: int|
                0 <= k < i ==> (#[trigger] groups@[k]).members@ == strung(
                    rosters(patterns@),
                    ascending(mask_set(masks@[k])),
                ),
            priced(*costs, groups@),
        decreases masks.len() - i,
    {
        let mask: u32 = masks[i];
        let n: usize = patterns.len();
        let mut members: Vec<usize> = Vec::new();
        let mut k: usize = 0;
        proof {
            assert(upto(0).intersect(mask_set(mask)) =~= Set::empty());
            lemma_crew_empty(all);
            assert(members@.to_set() =~= Set::empty());
            lemma_ascending(Set::empty());
        }
        while k < n
            invariant
                all == teams(patterns@),
                n == patterns.len(),
                n < 32,
                k <= n,
                members@.to_set() == crew_of(all, upto(k as nat).intersect(mask_set(mask))),
                members@ == strung(
                    rosters(patterns@),
                    ascending(upto(k as nat).intersect(mask_set(mask))),
                ),
            decreases n - k,
        {
            let ghost before = upto(k as nat).intersect(mask_set(mask));
            let ghost after = upto((k + 1) as nat).intersect(mask_set(mask));
            if (mask >> (k as u32)) & 1u32 == 1u32 {
                proof {
                    assert(mask_set(mask).contains(k));
                    assert(after =~= before.insert(k));
                    lemma_crew_insert(all, before, k);
                    lemma_upto(k as nat);
                    vstd::set_lib::lemma_set_subset_finite(upto(k as nat), before);
                    lemma_strung_next(rosters(patterns@), before, k);
                    assert(rosters(patterns@)[k as int] == patterns@[k as int].members@);
                }
                crate::group::extend_members(&mut members, &patterns[k].members);
                assert(all[k as int].members == patterns@[k as int].members@.to_set());
            } else {
                assert(after =~= before);
            }
            k = k + 1;
        }
        proof {
            lemma_mask_small(mask, n as u32);
            assert(upto(n as nat).intersect(mask_set(mask)) =~= mask_set(mask));
            assert(describes(table@[mask as int], *costs, now, s, mask));
        }
        let choice: &Choice = &table[mask as usize];
        groups.push(
            Group { checks: choice.checks.clone(), deadline: choice.deadline, members },
        );
        i = i + 1;
    }
    assert(teams(groups@) =~= bundles(all, mask_sets(masks@)));
    assert(rosters(groups@) =~= strung_all(rosters(patterns@), in_turn(mask_sets(masks@))));
    groups
}

/// The best partition of the patterns: fewest batches, then fewest seconds, then the
/// latest first launch, then the least list of subsets.
pub fn exact_partition(patterns: &Vec<Group>, costs: &Costs, now: u64) -> (groups: Vec<Group>)
    requires
        priced(*costs, patterns@),
        patterns.len() < 32,
        forall|i: int|
            0 <= i < patterns.len() ==> costs@.fits((#[trigger] patterns@[i])@.shape, now),
    ensures
        teams(groups@) == bundles(
            teams(patterns@),
            best_parts(costs@, now, shapes(teams(patterns@))),
        ),
        rosters(groups@) == strung_all(
            rosters(patterns@),
            in_turn(best_parts(costs@, now, shapes(teams(patterns@)))),
        ),
        priced(*costs, groups@),
{
    let ghost all = teams(patterns@);
    let ghost s = shapes(all);
    let n: u32 = patterns.len() as u32;
    proof {
        lemma_mask_full(n);
    }
    let size: u32 = 1u32 << n;
    let table: Vec<Choice> = choices(patterns, costs, now, size);
    let solutions: Vec<Option<Solution>> = solve(&table, costs, now, size, Ghost(s));
    proof {
        assert forall|i: int| 0 <= i < s.len() implies costs@.fits(#[trigger] s[i], now) by {
            assert(s[i] == patterns@[i]@.shape);
        }
        lemma_best_found(costs@, now, s);
    }
    match &solutions[(size - 1) as usize] {
        Some(solution) => {
            proof {
                let full = (size - 1) as u32;
                assert(found(solutions@[full as int]) == best(costs@, now, s, full));
                lemma_best_good(costs@, now, s, full);
                assert forall|i: int| 0 <= i < solution.groups.len() implies (
                #[trigger] solution.groups@[i]) < table.len() by {
                    let part = solution@.groups[i];
                    assert(within(part, full));
                    assert(part <= full) by (bit_vector)
                        requires
                            part & full == part,
                    ;
                }
            }
            exact_groups(patterns, &table, &solution.groups, costs, Ghost(now))
        },
        None => Vec::new(),
    }
}

} // verus!
