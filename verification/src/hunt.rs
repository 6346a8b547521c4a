//! Branch and bound over assignments of patterns to machines.
use vstd::multiset::Multiset;
use vstd::prelude::*;

use crate::bits::{bits_lt, lemma_bits_irreflexive, lemma_bits_total, lemma_bits_transitive};
use crate::listing::{listing, orders, upto};
use crate::partition::beats;
use crate::shape::{join, Rates, Shape};
use crate::team::extra;

verus! {

// Count search nodes instead of elapsed wall time so identical inputs produce
// identical decisions on different machines. The pattern cap also bounds
// recursion depth. Neither limit bounds the driver's total input memory.
pub const NODE_BUDGET: usize = 30_000;

pub const PATTERN_LIMIT: usize = 64;

/// What a search works on: the patterns, the order of assigning them, and a bound
/// that no partition undercuts.
pub struct Ground {
    pub rates: Rates,
    pub now: u64,
    pub shapes: Seq<Shape>,
    pub order: Seq<usize>,
    pub bound: (nat, nat),
    pub total_work: nat,
}

/// A machine under construction.
pub struct Slot {
    pub shape: Shape,
    pub patterns: Seq<usize>,
}

/// What a search knows: the best assignment so far, and where it has been.
pub struct Hunt {
    pub best: Seq<Seq<usize>>,
    pub best_score: (nat, nat),
    pub nodes: nat,
    pub exhausted: bool,
    pub seen: Set<(nat, Multiset<Shape>)>,
}

/// The order of assigning patterns: earliest latest start, then longest, then numeral
/// order of the checks, then position.
pub open spec fn harder(rates: Rates, s: Seq<Shape>, a: usize, b: usize) -> bool {
    let x = s[a as int];
    let y = s[b as int];
    let dx = rates.duration(x.checks);
    let dy = rates.duration(y.checks);
    ||| rates.latest(x) < rates.latest(y)
    ||| rates.latest(x) == rates.latest(y) && dx > dy
    ||| rates.latest(x) == rates.latest(y) && dx == dy && bits_lt(x.checks, y.checks)
    ||| rates.latest(x) == rates.latest(y) && dx == dy && x.checks == y.checks && a < b
}

/// The positions of `s` in assigning order.
pub open spec fn difficulty(rates: Rates, s: Seq<Shape>) -> Seq<usize> {
    listing(upto(s.len()), |a: usize, b: usize| harder(rates, s, a, b))
}

pub proof fn lemma_harder_orders(rates: Rates, s: Seq<Shape>, whole: Set<usize>)
    ensures
        orders(|a: usize, b: usize| harder(rates, s, a, b), whole),
{
    let lt = |a: usize, b: usize| harder(rates, s, a, b);
    assert forall|x: usize| whole.contains(x) implies !#[trigger] lt(x, x) by {
        lemma_bits_irreflexive(s[x as int].checks);
    }
    assert forall|x: usize, y: usize|
        whole.contains(x) && whole.contains(y) && x != y implies #[trigger] lt(x, y) || lt(
        y,
        x,
    ) by {
        if s[x as int].checks != s[y as int].checks {
            lemma_bits_total(s[x as int].checks, s[y as int].checks);
        }
    }
    assert forall|x: usize, y: usize, z: usize|
        whole.contains(x) && whole.contains(y) && whole.contains(z) && #[trigger] lt(x, y)
            && #[trigger] lt(y, z) implies lt(x, z) by {
        if bits_lt(s[x as int].checks, s[y as int].checks) && bits_lt(
            s[y as int].checks,
            s[z as int].checks,
        ) {
            lemma_bits_transitive(s[x as int].checks, s[y as int].checks, s[z as int].checks);
        }
    }
}

/// The demands of the machines.
pub open spec fn slot_shapes(slots: Seq<Slot>) -> Seq<Shape> {
    slots.map_values(|slot: Slot| slot.shape)
}

/// The demands of the machines, in no order. At a fixed position the unassigned
/// patterns are identical, and future choices depend only on this.
pub open spec fn load(slots: Seq<Slot>) -> Multiset<Shape> {
    slot_shapes(slots).to_multiset()
}

impl Ground {
    /// The demand of the pattern assigned at `pos`.
    pub open spec fn job(self, pos: nat) -> Shape {
        self.shapes[self.order[pos as int] as int]
    }

    /// The machines that can take in the pattern at `pos`, the first of each kind.
    pub open spec fn openings(self, slots: Seq<Slot>, pos: nat) -> Set<usize> {
        Set::new(
            |i: usize|
                {
                    &&& i < slots.len()
                    &&& self.rates.fits(join(slots[i as int].shape, self.job(pos)), self.now)
                    &&& forall|j: int|
                        0 <= j < i ==> (#[trigger] slots[j]).shape != slots[i as int].shape
                },
        )
    }

    /// Cheapest first, then by position.
    pub open spec fn cheaper(self, slots: Seq<Slot>, pos: nat, a: usize, b: usize) -> bool {
        let x = extra(self.rates, slots[a as int].shape, self.job(pos));
        let y = extra(self.rates, slots[b as int].shape, self.job(pos));
        x < y || x == y && a < b
    }

    /// The machines to try for the pattern at `pos`, in order.
    pub open spec fn options(self, slots: Seq<Slot>, pos: nat) -> Seq<usize> {
        listing(
            self.openings(slots, pos),
            |a: usize, b: usize| self.cheaper(slots, pos, a, b),
        )
    }

    /// The machines after the one at `i` takes in the pattern at `pos`.
    pub open spec fn filled(self, slots: Seq<Slot>, pos: nat, i: usize) -> Seq<Slot> {
        slots.update(
            i as int,
            Slot {
                shape: join(slots[i as int].shape, self.job(pos)),
                patterns: slots[i as int].patterns.push(self.order[pos as int]),
            },
        )
    }

    /// The machines after the pattern at `pos` gets one of its own.
    pub open spec fn opened(self, slots: Seq<Slot>, pos: nat) -> Seq<Slot> {
        slots.push(Slot { shape: self.job(pos), patterns: seq![self.order[pos as int]] })
    }

    /// Every uncovered check must be paid for at least once. Machines already open
    /// cannot disappear, and reaching the count bound may require more startup charges.
    /// This ignores duplicate future execution, keeping the estimate optimistic.
    pub open spec fn hopeless(
        self,
        best_score: (nat, nat),
        count: nat,
        secs: nat,
        covered: Set<usize>,
    ) -> bool {
        let possible = if self.bound.0 <= count {
            count
        } else {
            self.bound.0
        };
        let least = secs + (self.total_work - self.rates.work(covered)) + (possible - count)
            * self.rates.boot;
        possible > best_score.0 || possible == best_score.0 && least >= best_score.1
    }

    /// The search from `pos` on, with the given machines.
    pub open spec fn visit(
        self,
        h: Hunt,
        pos: nat,
        slots: Seq<Slot>,
        secs: nat,
        covered: Set<usize>,
    ) -> Hunt
        decreases self.order.len() - pos, 1int, 0int,
    {
        if h.best_score == self.bound || pos > self.order.len() {
            h
        } else if h.nodes >= NODE_BUDGET {
            Hunt { exhausted: true, ..h }
        } else {
            let counted = Hunt { nodes: h.nodes + 1, ..h };
            if self.hopeless(h.best_score, slots.len(), secs, covered) {
                counted
            } else if pos == self.order.len() {
                if beats((slots.len(), secs), h.best_score) {
                    Hunt {
                        best_score: (slots.len(), secs),
                        best: slots.map_values(|slot: Slot| slot.patterns),
                        ..counted
                    }
                } else {
                    counted
                }
            } else if h.seen.contains((pos, load(slots))) {
                counted
            } else {
                self.tries(
                    Hunt { seen: h.seen.insert((pos, load(slots))), ..counted },
                    pos,
                    slots,
                    secs,
                    covered,
                    0,
                )
            }
        }
    }

    /// The search over the machines for the pattern at `pos`, from option `k` on.
    pub open spec fn tries(
        self,
        h: Hunt,
        pos: nat,
        slots: Seq<Slot>,
        secs: nat,
        covered: Set<usize>,
        k: nat,
    ) -> Hunt
        decreases self.order.len() - pos, 0int, self.options(slots, pos).len() - k,
    {
        let options = self.options(slots, pos);
        let wider = covered.union(self.job(pos).checks);
        if pos >= self.order.len() {
            h
        } else if k < options.len() {
            let i = options[k as int];
            let after = self.visit(
                h,
                pos + 1,
                self.filled(slots, pos, i),
                (secs + extra(self.rates, slots[i as int].shape, self.job(pos))) as nat,
                wider,
            );
            if after.exhausted || after.best_score == self.bound {
                after
            } else {
                self.tries(after, pos, slots, secs, covered, k + 1)
            }
        } else if slots.len() < h.best_score.0 {
            self.visit(
                h,
                pos + 1,
                self.opened(slots, pos),
                secs + self.rates.duration(self.job(pos).checks),
                wider,
            )
        } else {
            h
        }
    }

    /// The scores that assigning the patterns from `pos` on can end with, in every
    /// possible way.
    pub open spec fn reach(
        self,
        pos: nat,
        loads: Multiset<Shape>,
        secs: nat,
        end: (nat, nat),
    ) -> bool
        decreases self.order.len() - pos,
    {
        if pos >= self.order.len() {
            end == (loads.len(), secs)
        } else {
            ||| self.reach(
                pos + 1,
                loads.insert(self.job(pos)),
                secs + self.rates.duration(self.job(pos).checks),
                end,
            )
            ||| exists|base: Shape| #[trigger]
                loads.contains(base) && self.rates.fits(join(base, self.job(pos)), self.now)
                    && self.reach(
                    pos + 1,
                    loads.remove(base).insert(join(base, self.job(pos))),
                    (secs + extra(self.rates, base, self.job(pos))) as nat,
                    end,
                )
        }
    }
}

} // verus!
